//! The data the builder consumes and produces: styles, annotations
//! (captures), runs and display lines.

use vstd::prelude::*;

verus! {

/// A resolved display style: an opaque, comparable attribute bundle
/// (a foreground colour token and a set of modifier flags). The builder
/// never interprets it; it only copies it onto the runs it emits.
#[derive(Clone, Copy, Debug, PartialEq, Eq, Structural, Hash)]
pub struct Style {
    pub fg: u8,
    pub attrs: u8,
}

/// One style annotation from the highlighter: a half-open range
/// `[start, end)` of 0-based character indices, tagged with a style.
///
/// A well-behaved highlighter hands the builder captures that are sorted
/// ascending by `start`, pairwise non-overlapping, and non-empty
/// (`start < end`). The builder never indexes the text by these bounds,
/// so an endpoint at or past the text length behaves exactly as if it
/// were the text length.
#[derive(Clone, Copy, Debug, PartialEq, Eq, Structural, Hash)]
pub struct Capture {
    pub start: usize,
    pub end: usize,
    pub style: Style,
}

impl Capture {
    /// The capture annotates the character at index `i`.
    pub open spec fn covers(self, i: int) -> bool {
        self.start <= i < self.end
    }
}

/// A contiguous piece of one display line, rendered with a single style.
#[derive(Debug)]
pub struct Run {
    pub text: Vec<char>,
    pub style: Style,
}

/// Mathematical image of a [`Run`].
pub ghost struct RunModel {
    pub text: Seq<char>,
    pub style: Style,
}

impl View for Run {
    type V = RunModel;

    open spec fn view(&self) -> RunModel {
        RunModel { text: self.text@, style: self.style }
    }
}

/// One display line: an ordered sequence of styled runs. The line break
/// that ended the line in the source text is consumed as a separator and
/// belongs to no run.
#[derive(Debug)]
pub struct Line {
    pub runs: Vec<Run>,
}

impl View for Line {
    type V = Seq<RunModel>;

    open spec fn view(&self) -> Seq<RunModel> {
        self.runs@.map_values(|r: Run| r@)
    }
}

/// The views of a built sequence of lines, as the contracts speak of it.
pub open spec fn lines_view(lines: Seq<Line>) -> Seq<Seq<RunModel>> {
    lines.map_values(|l: Line| l@)
}

} // verus!
