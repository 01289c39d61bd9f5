//! The executable styled-line builder: one forward scan over the text,
//! proved to return exactly the value of [`crate::scan::spec_build`].

use vstd::prelude::*;

use crate::properties::lemma_reconstruction;
use crate::scan::{initial_state, is_break, joined, scan, scan_step, spec_build};
use crate::styled_text::{lines_view, Capture, Line, Run, Style};

verus! {

/// Whether `c` ends a display line.
pub fn is_endline(c: char) -> (r: bool)
    ensures
        r == is_break(c),
{
    c == '\n'
}

/// The characters of `s`, as the 0-based sequence of Unicode scalar values
/// that capture indices address. Byte-indexed annotation boundaries must be
/// converted by the highlighter; this builder only counts characters.
pub fn text_chars(s: &str) -> (v: Vec<char>)
    ensures
        v@ == s@,
{
    let mut v: Vec<char> = Vec::new();
    for c in it: s.chars()
        invariant
            v@ =~= it.seq().take(it.index() as int),
            it.seq() == s@,
    {
        v.push(c);
    }
    proof {
        assert(v@ =~= s@);
    }
    v
}

/// Builds the styled display lines for `content`.
///
/// `captures` is the annotation queue obtained from the highlighter,
/// consumed front to back; `default_style` is the resolved fallback style
/// for unannotated text. Indices in `captures` address `content` by
/// character (Unicode scalar value), which is how `content` is given here.
///
/// The result is exactly the decision table of [`crate::scan::spec_build`]
/// applied to the whole text, and the run texts of its lines, joined with
/// one line break between consecutive lines, reproduce `content` exactly,
/// whatever the captures hold.
pub fn build_styled_content(
    content: &Vec<char>,
    captures: &Vec<Capture>,
    default_style: Style,
) -> (lines: Vec<Line>)
    ensures
        lines_view(lines@) == spec_build(content@, captures@, default_style),
        joined(lines_view(lines@)) == content@,
{
    let mut lines: Vec<Line> = Vec::new();
    let mut line: Vec<Run> = Vec::new();
    let mut token: Vec<char> = Vec::new();
    let mut next: usize = 0;

    let n: usize = content.len();
    let mut i: usize = 0;
    assert(scan(content@, captures@, default_style, 0) == initial_state());
    while i < n
        invariant
            0 <= i <= n,
            n == content@.len(),
            next <= captures@.len(),
            ({
                let st = scan(content@, captures@, default_style, i as int);
                &&& next as int == st.next
                &&& token@ == st.token
                &&& line@.map_values(|r: Run| r@) == st.line
                &&& lines_view(lines@) == st.lines
            }),
        decreases n - i,
    {
        let ghost st = scan(content@, captures@, default_style, i as int);
        let ghost st1 = scan_step(captures@, default_style, st, i as int, content@[i as int]);
        assert(scan(content@, captures@, default_style, i + 1) == st1);

        let c = content[i];
        if next < captures.len() {
            let cap = captures[next];
            if i == cap.start && token.len() == 0 {
                token.push(c);
            } else if i == cap.start {
                line.push(Run { text: token, style: default_style });
                token = Vec::new();
                token.push(c);
            } else if i == cap.end && is_endline(c) {
                line.push(Run { text: token, style: cap.style });
                let complete = Line { runs: line };
                proof {
                    assert(complete@ =~= st1.lines.last());
                }
                lines.push(complete);
                token = Vec::new();
                line = Vec::new();
                next = next + 1;
            } else if i == cap.end {
                line.push(Run { text: token, style: cap.style });
                token = Vec::new();
                token.push(c);
                next = next + 1;
            } else if is_endline(c) {
                line.push(Run { text: token, style: cap.style });
                let complete = Line { runs: line };
                proof {
                    assert(complete@ =~= st1.lines.last());
                }
                lines.push(complete);
                token = Vec::new();
                line = Vec::new();
            } else {
                token.push(c);
            }
        } else {
            if token.len() > 0 && !is_endline(c) {
                line.push(Run { text: token, style: default_style });
                token = Vec::new();
                token.push(c);
            } else if is_endline(c) {
                line.push(Run { text: token, style: default_style });
                let complete = Line { runs: line };
                proof {
                    assert(complete@ =~= st1.lines.last());
                }
                lines.push(complete);
                token = Vec::new();
                line = Vec::new();
            } else {
                token.push(c);
            }
        }
        assert(token@ == st1.token);
        assert(line@.map_values(|r: Run| r@) =~= st1.line);
        assert(lines_view(lines@) =~= st1.lines);
        i = i + 1;
    }

    let last_style = if next < captures.len() {
        captures[next].style
    } else {
        default_style
    };
    line.push(Run { text: token, style: last_style });
    let complete = Line { runs: line };
    proof {
        assert(complete@ =~= spec_build(content@, captures@, default_style).last());
    }
    lines.push(complete);

    assert(lines_view(lines@) =~= spec_build(content@, captures@, default_style));
    proof {
        lemma_reconstruction(content@, captures@, default_style);
    }
    lines
}

} // verus!
