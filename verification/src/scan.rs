//! The mathematical model of the builder: the scan state, the decision
//! table applied to one character, and the shape of the finished output.
//!
//! [`spec_build`] is the reference meaning of the builder: the executable
//! scan in [`crate::builder`] is proved to return exactly its value.

use vstd::prelude::*;

use crate::styled_text::{Capture, RunModel, Style};

verus! {

/// The one character the scan treats as a line break.
pub open spec fn is_break(c: char) -> bool {
    c == '\n'
}

/// The state the scan carries from one character to the next.
pub ghost struct ScanState {
    /// Index into the capture queue of the front capture not yet finished;
    /// that capture is the active one while the index is in range.
    pub next: int,
    /// Characters of the run currently being accumulated.
    pub token: Seq<char>,
    /// Runs of the display line currently being accumulated.
    pub line: Seq<RunModel>,
    /// Completed display lines.
    pub lines: Seq<Seq<RunModel>>,
}

/// The scan starts at the front of the queue with everything empty.
pub open spec fn initial_state() -> ScanState {
    ScanState { next: 0, token: Seq::empty(), line: Seq::empty(), lines: Seq::empty() }
}

/// The active capture, when the queue is not yet exhausted.
pub open spec fn active(caps: Seq<Capture>, st: ScanState) -> Option<Capture> {
    if 0 <= st.next < caps.len() {
        Some(caps[st.next])
    } else {
        None
    }
}

/// The decision table for the character `c` at index `i`: the first
/// matching rule wins. Boundary checks run start, then end, then line
/// break, so a capture that ends where the next one starts is popped
/// first and `c` opens the following run unconditionally.
pub open spec fn scan_step(
    caps: Seq<Capture>,
    default_style: Style,
    st: ScanState,
    i: int,
    c: char,
) -> ScanState {
    if active(caps, st) is Some {
        let cap = active(caps, st)->Some_0;
        if i == cap.start && st.token.len() == 0 {
            // begin buffering the annotated run
            ScanState { token: st.token.push(c), ..st }
        } else if i == cap.start {
            // unannotated text precedes this capture: flush it with the
            // default style
            ScanState {
                token: seq![c],
                line: st.line.push(RunModel { text: st.token, style: default_style }),
                ..st
            }
        } else if i == cap.end && is_break(c) {
            // the capture and the line end together
            ScanState {
                next: st.next + 1,
                token: Seq::empty(),
                line: Seq::empty(),
                lines: st.lines.push(
                    st.line.push(RunModel { text: st.token, style: cap.style }),
                ),
            }
        } else if i == cap.end {
            // the capture ends mid-line; `c` opens the next run
            ScanState {
                next: st.next + 1,
                token: seq![c],
                line: st.line.push(RunModel { text: st.token, style: cap.style }),
                ..st
            }
        } else if is_break(c) {
            // a multi-line capture crosses the break and stays active
            ScanState {
                token: Seq::empty(),
                line: Seq::empty(),
                lines: st.lines.push(
                    st.line.push(RunModel { text: st.token, style: cap.style }),
                ),
                ..st
            }
        } else {
            ScanState { token: st.token.push(c), ..st }
        }
    } else {
        if st.token.len() > 0 && !is_break(c) {
            ScanState {
                token: seq![c],
                line: st.line.push(RunModel { text: st.token, style: default_style }),
                ..st
            }
        } else if is_break(c) {
            ScanState {
                token: Seq::empty(),
                line: Seq::empty(),
                lines: st.lines.push(
                    st.line.push(RunModel { text: st.token, style: default_style }),
                ),
                ..st
            }
        } else {
            ScanState { token: st.token.push(c), ..st }
        }
    }
}

/// The state after the first `n` characters of `text` have been scanned.
pub open spec fn scan(text: Seq<char>, caps: Seq<Capture>, default_style: Style, n: int) -> ScanState
    recommends
        0 <= n <= text.len(),
    decreases n,
{
    if n <= 0 {
        initial_state()
    } else {
        scan_step(caps, default_style, scan(text, caps, default_style, n - 1), n - 1, text[n - 1])
    }
}

/// The unconditional trailing flush: the remaining token becomes one last
/// run (styled by the still-active capture, or default), and the current
/// line is pushed, so the output always holds at least one line.
pub open spec fn finish(caps: Seq<Capture>, default_style: Style, st: ScanState) -> Seq<Seq<RunModel>> {
    let style = if active(caps, st) is Some {
        active(caps, st)->Some_0.style
    } else {
        default_style
    };
    st.lines.push(st.line.push(RunModel { text: st.token, style }))
}

/// The meaning of one build call: scan the whole text, then flush.
pub open spec fn spec_build(text: Seq<char>, caps: Seq<Capture>, default_style: Style) -> Seq<
    Seq<RunModel>,
> {
    finish(caps, default_style, scan(text, caps, default_style, text.len() as int))
}

/// All the text of one line: its run texts concatenated.
pub open spec fn line_text(line: Seq<RunModel>) -> Seq<char>
    decreases line.len(),
{
    if line.len() == 0 {
        Seq::empty()
    } else {
        line_text(line.drop_last()) + line.last().text
    }
}

/// The text of a sequence of completed lines, each followed by the line
/// break that ended it.
pub open spec fn lines_text(lines: Seq<Seq<RunModel>>) -> Seq<char>
    decreases lines.len(),
{
    if lines.len() == 0 {
        Seq::empty()
    } else {
        lines_text(lines.drop_last()) + line_text(lines.last()) + seq!['\n']
    }
}

/// The run texts of every line joined, with one line break inserted
/// between consecutive lines.
pub open spec fn joined(lines: Seq<Seq<RunModel>>) -> Seq<char> {
    if lines.len() == 0 {
        Seq::empty()
    } else {
        lines_text(lines.drop_last()) + line_text(lines.last())
    }
}

} // verus!
