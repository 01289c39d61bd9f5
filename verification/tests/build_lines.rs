use styled_lines::builder::{build_styled_content, is_endline, text_chars};
use styled_lines::styled_text::{Capture, Line, Run, Style};

fn chars_of(s: &str) -> Vec<char> {
    s.chars().collect()
}

fn style(fg: u8) -> Style {
    Style { fg, attrs: 0 }
}

fn default_style() -> Style {
    style(7)
}

fn cap(start: usize, end: usize, st: Style) -> Capture {
    Capture { start, end, style: st }
}

fn assert_line(line: &Line, expected: &[(&str, Style)]) {
    assert_eq!(line.runs.len(), expected.len());
    for (run, (text, st)) in line.runs.iter().zip(expected.iter()) {
        assert_eq!(run.text, chars_of(text));
        assert_eq!(run.style, *st);
    }
}

fn rebuilt(lines: &[Line]) -> String {
    let mut out = String::new();
    for (i, line) in lines.iter().enumerate() {
        if i > 0 {
            out.push('\n');
        }
        for run in &line.runs {
            out.extend(run.text.iter());
        }
    }
    out
}

#[test]
fn empty_input_yields_one_empty_default_line() {
    let lines = build_styled_content(&chars_of(""), &Vec::new(), default_style());
    assert_eq!(lines.len(), 1);
    assert_line(&lines[0], &[("", default_style())]);
}

#[test]
fn annotation_covering_first_line() {
    let s1 = style(1);
    let text = chars_of("ab\ncd");
    let caps = vec![cap(0, 2, s1)];
    let lines = build_styled_content(&text, &caps, default_style());
    assert_eq!(lines.len(), 2);
    assert_line(&lines[0], &[("ab", s1)]);
    // with no capture active, every further character flushes the one
    // before it, so the second line splits into single-character runs
    assert_line(&lines[1], &[("c", default_style()), ("d", default_style())]);
    assert_eq!(rebuilt(&lines), "ab\ncd");
}

#[test]
fn annotation_in_the_middle_of_a_line() {
    let s1 = style(1);
    let text = chars_of("abc");
    let caps = vec![cap(1, 2, s1)];
    let lines = build_styled_content(&text, &caps, default_style());
    assert_eq!(lines.len(), 1);
    assert_line(
        &lines[0],
        &[("a", default_style()), ("b", s1), ("c", default_style())],
    );
}

#[test]
fn annotation_spanning_a_line_break() {
    let s1 = style(1);
    let text = chars_of("a\nb");
    let caps = vec![cap(0, 3, s1)];
    let lines = build_styled_content(&text, &caps, default_style());
    assert_eq!(lines.len(), 2);
    assert_line(&lines[0], &[("a", s1)]);
    assert_line(&lines[1], &[("b", s1)]);
}

#[test]
fn no_annotations_two_lines() {
    let text = chars_of("x\ny");
    let lines = build_styled_content(&text, &Vec::new(), default_style());
    assert_eq!(lines.len(), 2);
    assert_line(&lines[0], &[("x", default_style())]);
    assert_line(&lines[1], &[("y", default_style())]);
}

#[test]
fn trailing_break_yields_extra_empty_line() {
    let text = chars_of("x\n");
    let lines = build_styled_content(&text, &Vec::new(), default_style());
    assert_eq!(lines.len(), 2);
    assert_line(&lines[0], &[("x", default_style())]);
    assert_line(&lines[1], &[("", default_style())]);
    assert_eq!(rebuilt(&lines), "x\n");
}

#[test]
fn adjacent_annotations_share_a_boundary() {
    let s1 = style(1);
    let s2 = style(2);
    let text = chars_of("abcd");
    let caps = vec![cap(0, 2, s1), cap(2, 4, s2)];
    let lines = build_styled_content(&text, &caps, default_style());
    assert_eq!(lines.len(), 1);
    assert_line(&lines[0], &[("ab", s1), ("cd", s2)]);
}

#[test]
fn gap_before_annotation_stays_default() {
    let s1 = style(1);
    let text = chars_of("ab cd");
    let caps = vec![cap(3, 5, s1)];
    let lines = build_styled_content(&text, &caps, default_style());
    assert_eq!(lines.len(), 1);
    assert_line(&lines[0], &[("ab ", default_style()), ("cd", s1)]);
}

#[test]
fn endpoint_past_text_acts_as_text_length() {
    let s1 = style(1);
    let text = chars_of("ab");
    let caps = vec![cap(0, 5, s1)];
    let lines = build_styled_content(&text, &caps, default_style());
    assert_eq!(lines.len(), 1);
    assert_line(&lines[0], &[("ab", s1)]);
}

#[test]
fn annotation_crossing_an_empty_line_styles_it() {
    let s1 = style(1);
    let text = chars_of("a\n\nb");
    let caps = vec![cap(0, 4, s1)];
    let lines = build_styled_content(&text, &caps, default_style());
    assert_eq!(lines.len(), 3);
    assert_line(&lines[0], &[("a", s1)]);
    assert_line(&lines[1], &[("", s1)]);
    assert_line(&lines[2], &[("b", s1)]);
    assert_eq!(rebuilt(&lines), "a\n\nb");
}

#[test]
fn reconstruction_of_mixed_text() {
    let s1 = style(1);
    let s2 = style(4);
    let text = "let x = 1;\nprint(x)\n\nend";
    let caps = vec![cap(0, 3, s1), cap(4, 5, s2), cap(11, 16, s1)];
    let lines = build_styled_content(&chars_of(text), &caps, default_style());
    assert_eq!(rebuilt(&lines), text);
    for line in &lines {
        for run in &line.runs {
            assert!(!run.text.contains(&'\n'));
        }
    }
}

#[test]
fn styles_follow_annotation_boundaries() {
    let s1 = style(3);
    let text = chars_of("one two\nthree");
    // annotates "two\nthr"
    let caps = vec![cap(4, 11, s1)];
    let lines = build_styled_content(&text, &caps, default_style());
    assert_eq!(lines.len(), 2);
    assert_line(&lines[0], &[("one ", default_style()), ("two", s1)]);
    assert_line(&lines[1], &[("thr", s1), ("e", default_style()), ("e", default_style())]);
}

#[test]
fn break_inside_gap_carries_front_capture_style() {
    // a line break in the unannotated gap before a capture flushes with
    // that capture's style: fixed behaviour of the decision table, and the
    // reason the style-fidelity law assumes gaps free of line breaks
    let s1 = style(1);
    let text = chars_of("x\nab");
    let caps = vec![cap(2, 4, s1)];
    let lines = build_styled_content(&text, &caps, default_style());
    assert_eq!(lines.len(), 2);
    assert_line(&lines[0], &[("x", s1)]);
    assert_line(&lines[1], &[("ab", s1)]);
    assert_eq!(rebuilt(&lines), "x\nab");
}

#[test]
fn is_endline_recognises_only_the_line_feed() {
    assert!(is_endline('\n'));
    assert!(!is_endline('a'));
    assert!(!is_endline('\r'));
    assert!(!is_endline(' '));
}

#[test]
fn text_chars_counts_scalar_values_not_bytes() {
    assert_eq!(text_chars("h\u{e9}llo\n"), chars_of("héllo\n"));
    assert_eq!(text_chars("héllo").len(), 5);
    assert_eq!(text_chars(""), Vec::<char>::new());
}

#[test]
fn multibyte_characters_keep_annotation_boundaries() {
    let s1 = style(1);
    // "é" is one character: the annotation covers exactly "éb"
    let text = text_chars("aébc");
    let caps = vec![cap(1, 3, s1)];
    let lines = build_styled_content(&text, &caps, default_style());
    assert_eq!(lines.len(), 1);
    assert_line(
        &lines[0],
        &[("a", default_style()), ("éb", s1), ("c", default_style())],
    );
}

#[test]
fn runs_carry_their_fields() {
    let run = Run { text: chars_of("abc"), style: style(9) };
    assert_eq!(run.text.len(), 3);
    assert_eq!(run.style, style(9));
}
