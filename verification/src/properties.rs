//! Proved laws of the builder, stated over the model in [`crate::scan`].

use vstd::prelude::*;

use crate::scan::{
    active, finish, is_break, joined, line_text, lines_text, scan, scan_step, spec_build,
    ScanState,
};
use crate::styled_text::{Capture, RunModel, Style};

verus! {

/// Appending a run to a line appends its text to the line's text.
proof fn lemma_line_text_push(line: Seq<RunModel>, r: RunModel)
    ensures
        line_text(line.push(r)) == line_text(line) + r.text,
{
    assert(line.push(r).drop_last() =~= line);
    assert(line.push(r).last() == r);
}

/// Completing a line appends its text and one line break.
proof fn lemma_lines_text_push(lines: Seq<Seq<RunModel>>, line: Seq<RunModel>)
    ensures
        lines_text(lines.push(line)) == lines_text(lines) + line_text(line) + seq!['\n'],
{
    assert(lines.push(line).drop_last() =~= lines);
    assert(lines.push(line).last() == line);
}

/// The text emitted by the first `n` scanned characters — completed lines
/// (each with its consumed line break), the open line, and the open token —
/// is exactly the first `n` characters of the input.
proof fn lemma_scan_reconstruction(text: Seq<char>, caps: Seq<Capture>, d: Style, n: int)
    requires
        0 <= n <= text.len(),
    ensures
        lines_text(scan(text, caps, d, n).lines) + line_text(scan(text, caps, d, n).line) + scan(
            text,
            caps,
            d,
            n,
        ).token == text.take(n),
    decreases n,
{
    if n == 0 {
        let st = scan(text, caps, d, 0);
        assert(line_text(st.line) == Seq::<char>::empty());
        assert(lines_text(st.lines) == Seq::<char>::empty());
        assert(lines_text(st.lines) + line_text(st.line) + st.token =~= text.take(0));
    } else {
        lemma_scan_reconstruction(text, caps, d, n - 1);
        let st = scan(text, caps, d, n - 1);
        let c = text[n - 1];
        let stn = scan(text, caps, d, n);
        assert(stn == scan_step(caps, d, st, n - 1, c));
        assert(text.take(n) =~= text.take(n - 1).push(c));
        lemma_line_text_push(st.line, RunModel { text: st.token, style: d });
        lemma_lines_text_push(st.lines, st.line.push(RunModel { text: st.token, style: d }));
        if active(caps, st) is Some {
            let cap = active(caps, st)->Some_0;
            lemma_line_text_push(st.line, RunModel { text: st.token, style: cap.style });
            lemma_lines_text_push(
                st.lines,
                st.line.push(RunModel { text: st.token, style: cap.style }),
            );
        }
        assert(lines_text(stn.lines) + line_text(stn.line) + stn.token =~= text.take(n));
    }
}

/// The styles of one run, one entry per character of its text.
pub open spec fn run_styles(r: RunModel) -> Seq<Option<Style>> {
    Seq::new(r.text.len(), |k: int| Some(r.style))
}

/// The styles of one line's characters, runs in order.
pub open spec fn line_styles(l: Seq<RunModel>) -> Seq<Option<Style>>
    decreases l.len(),
{
    if l.len() == 0 {
        Seq::empty()
    } else {
        line_styles(l.drop_last()) + run_styles(l.last())
    }
}

/// The styles of the characters of completed lines; the consumed line
/// break behind each line belongs to no run and gets no style.
pub open spec fn lines_styles(ls: Seq<Seq<RunModel>>) -> Seq<Option<Style>>
    decreases ls.len(),
{
    if ls.len() == 0 {
        Seq::empty()
    } else {
        lines_styles(ls.drop_last()) + line_styles(ls.last()) + seq![Option::<Style>::None]
    }
}

/// The style carried by each character position of a build's output,
/// parallel to [`joined`]: position by position, the style of the run
/// holding that character, and nothing for the separators between lines.
pub open spec fn joined_styles(ls: Seq<Seq<RunModel>>) -> Seq<Option<Style>> {
    if ls.len() == 0 {
        Seq::empty()
    } else {
        lines_styles(ls.drop_last()) + line_styles(ls.last())
    }
}

proof fn lemma_line_styles_push(l: Seq<RunModel>, r: RunModel)
    ensures
        line_styles(l.push(r)) == line_styles(l) + run_styles(r),
{
    assert(l.push(r).drop_last() =~= l);
    assert(l.push(r).last() == r);
}

proof fn lemma_lines_styles_push(ls: Seq<Seq<RunModel>>, l: Seq<RunModel>)
    ensures
        lines_styles(ls.push(l)) == lines_styles(ls) + line_styles(l) + seq![
            Option::<Style>::None,
        ],
{
    assert(ls.push(l).drop_last() =~= ls);
    assert(ls.push(l).last() == l);
}

/// The capture queue is as the highlighter guarantees it: ascending,
/// pairwise non-overlapping, every range non-empty.
pub open spec fn queue_well_formed(caps: Seq<Capture>) -> bool {
    &&& forall|j: int| 0 <= j < caps.len() ==> (#[trigger] caps[j]).start < caps[j].end
    &&& forall|j: int| 0 <= j < caps.len() - 1 ==> (#[trigger] caps[j]).end <= caps[j + 1].start
}

/// In a well-formed queue every earlier capture ends at or before a later
/// capture starts.
proof fn lemma_queue_ordered(caps: Seq<Capture>, j: int, k: int)
    requires
        queue_well_formed(caps),
        0 <= j < k < caps.len(),
    ensures
        caps[j].end <= caps[k].start,
    decreases k - j,
{
    if j + 1 < k {
        lemma_queue_ordered(caps, j, k - 1);
    }
}

/// The lower bound of the unannotated gap in front of capture `j`: the end
/// of the capture before it, or the start of the text.
pub open spec fn gap_lo(caps: Seq<Capture>, j: int) -> int {
    if j <= 0 {
        0
    } else {
        caps[j - 1].end as int
    }
}

/// No line break stands in the unannotated gap in front of any capture.
/// The scan flushes on every line break with the style of the front
/// capture, so a break inside such a gap would carry that capture's style
/// onto unannotated text.
pub open spec fn gaps_without_breaks(text: Seq<char>, caps: Seq<Capture>) -> bool {
    forall|j: int, i: int|
        #![trigger caps[j], text[i]]
        0 <= j < caps.len() && gap_lo(caps, j) <= i < caps[j].start && 0 <= i < text.len()
            ==> text[i] != '\n'
}

/// Some capture of the queue annotates the character at index `i`.
pub open spec fn covered(caps: Seq<Capture>, i: int) -> bool {
    exists|j: int| 0 <= j < caps.len() && (#[trigger] caps[j]).covers(i)
}

/// A position between the end of capture `k - 1` (or the text start) and
/// the start of capture `k` (or the text end) is annotated by no capture.
proof fn lemma_gap_uncovered(caps: Seq<Capture>, k: int, p: int)
    requires
        queue_well_formed(caps),
        0 <= k <= caps.len(),
        gap_lo(caps, k) <= p,
        k < caps.len() ==> p < caps[k].start,
    ensures
        !covered(caps, p),
{
    assert forall|j: int| 0 <= j < caps.len() implies !(#[trigger] caps[j]).covers(p) by {
        if j < k {
            if j < k - 1 {
                lemma_queue_ordered(caps, j, k - 1);
            }
            assert(caps[j].end <= gap_lo(caps, k));
        } else {
            if k < j {
                lemma_queue_ordered(caps, k, j);
            }
            assert(p < caps[j].start);
        }
    }
}

/// In a well-formed queue at most one capture annotates each position.
proof fn lemma_cover_unique(caps: Seq<Capture>, j: int, k: int, p: int)
    requires
        queue_well_formed(caps),
        0 <= j < caps.len(),
        0 <= k < caps.len(),
        caps[j].covers(p),
        caps[k].covers(p),
    ensures
        j == k,
{
    if j < k {
        lemma_queue_ordered(caps, j, k);
    } else if k < j {
        lemma_queue_ordered(caps, k, j);
    }
}

/// The style `os` is the right one for position `p`: the style of the
/// capture annotating `p`, and the default style where no capture does.
pub open spec fn style_ok_at(caps: Seq<Capture>, d: Style, p: int, os: Option<Style>) -> bool {
    &&& forall|j: int|
        0 <= j < caps.len() && (#[trigger] caps[j]).covers(p) ==> os == Some(caps[j].style)
    &&& (!covered(caps, p) ==> os == Some(d))
}

/// Every emitted position that does not hold a line break carries the
/// right style.
pub open spec fn styles_ok(
    text: Seq<char>,
    caps: Seq<Capture>,
    d: Style,
    sty: Seq<Option<Style>>,
) -> bool {
    forall|p: int|
        0 <= p < sty.len() && p < text.len() && text[p] != '\n' ==> style_ok_at(
            caps,
            d,
            p,
            #[trigger] sty[p],
        )
}

/// What the pending token will be flushed as: text annotated by the front
/// capture (to be flushed with its style), or unannotated text from the
/// gap before it (to be flushed with the default style).
pub open spec fn token_case(caps: Seq<Capture>, n: int, st: ScanState) -> bool {
    ||| (st.next < caps.len() && caps[st.next].start <= n - st.token.len() && n
        <= caps[st.next].end)
    ||| (st.next == caps.len() || n <= caps[st.next].start)
}

/// The style bookkeeping of the scan: after `n` characters, every emitted
/// position carries the right style, the pending token lies either inside
/// the front capture or inside the unannotated gap before it, and the scan
/// has passed the end of every finished capture but not of the front one.
proof fn lemma_scan_styles(text: Seq<char>, caps: Seq<Capture>, d: Style, n: int)
    requires
        0 <= n <= text.len(),
        queue_well_formed(caps),
        gaps_without_breaks(text, caps),
    ensures
        ({
            let st = scan(text, caps, d, n);
            let esty = lines_styles(st.lines) + line_styles(st.line);
            &&& 0 <= st.next <= caps.len()
            &&& st.token.len() <= n
            &&& esty.len() == n - st.token.len()
            &&& gap_lo(caps, st.next) <= n - st.token.len()
            &&& (st.next < caps.len() ==> n <= caps[st.next].end)
            &&& (st.token.len() > 0 ==> token_case(caps, n, st))
            &&& styles_ok(text, caps, d, esty)
        }),
    decreases n,
{
    if n == 0 {
        let st = scan(text, caps, d, 0);
        let esty = lines_styles(st.lines) + line_styles(st.line);
        assert(esty.len() == 0);
        if caps.len() > 0 {
            assert(caps[0].start < caps[0].end);
        }
    } else {
        lemma_scan_styles(text, caps, d, n - 1);
        let st = scan(text, caps, d, n - 1);
        let stn = scan(text, caps, d, n);
        let i = n - 1;
        let c = text[i];
        assert(stn == scan_step(caps, d, st, i, c));
        let esty = lines_styles(st.lines) + line_styles(st.line);
        let t0 = i - st.token.len();
        let estyn = lines_styles(stn.lines) + line_styles(stn.line);
        if active(caps, st) is Some {
            let cap = caps[st.next];
            assert(cap.start < cap.end);
            if i == cap.start && st.token.len() == 0 {
                assert(estyn == esty);
                assert(token_case(caps, n, stn));
            } else if i == cap.start {
                // the pending token is gap text: flush it with the default
                // style; its positions are annotated by no capture
                assert(n - 1 <= cap.start);  // token case A is impossible here
                let r = RunModel { text: st.token, style: d };
                lemma_line_styles_push(st.line, r);
                assert(estyn =~= esty + run_styles(r));
                assert forall|p: int|
                    0 <= p < estyn.len() && p < text.len() && text[p] != '\n' implies style_ok_at(
                    caps,
                    d,
                    p,
                    estyn[p],
                ) by {
                    if p < t0 {
                        assert(estyn[p] == esty[p]);
                    } else {
                        lemma_gap_uncovered(caps, st.next, p);
                        assert(estyn[p] == Some(d));
                    }
                }
                assert(token_case(caps, n, stn));
            } else if i == cap.end && is_break(c) {
                lemma_flush_active(text, caps, d, n);
                let r = RunModel { text: st.token, style: cap.style };
                lemma_line_styles_push(st.line, r);
                lemma_lines_styles_push(st.lines, st.line.push(r));
                assert(estyn =~= esty + run_styles(r) + seq![Option::<Style>::None]);
                lemma_styles_ok_flush_covered(text, caps, d, n);
                assert(styles_ok(text, caps, d, estyn));
                if st.next + 1 < caps.len() {
                    assert(caps[st.next].end <= caps[st.next + 1].start);
                    assert(caps[st.next + 1].start < caps[st.next + 1].end);
                }
            } else if i == cap.end {
                lemma_flush_active(text, caps, d, n);
                let r = RunModel { text: st.token, style: cap.style };
                lemma_line_styles_push(st.line, r);
                assert(estyn =~= esty + run_styles(r));
                lemma_styles_ok_flush_covered(text, caps, d, n);
                assert(styles_ok(text, caps, d, estyn));
                if st.next + 1 < caps.len() {
                    assert(caps[st.next].end <= caps[st.next + 1].start);
                    assert(caps[st.next + 1].start < caps[st.next + 1].end);
                }
                assert(token_case(caps, n, stn));
            } else if is_break(c) {
                lemma_flush_active(text, caps, d, n);
                let r = RunModel { text: st.token, style: cap.style };
                lemma_line_styles_push(st.line, r);
                lemma_lines_styles_push(st.lines, st.line.push(r));
                assert(estyn =~= esty + run_styles(r) + seq![Option::<Style>::None]);
                lemma_styles_ok_flush_covered(text, caps, d, n);
                assert(styles_ok(text, caps, d, estyn));
            } else {
                assert(estyn == esty);
                assert(token_case(caps, n, stn));
            }
        } else {
            if st.token.len() > 0 && !is_break(c) {
                let r = RunModel { text: st.token, style: d };
                lemma_line_styles_push(st.line, r);
                assert(estyn =~= esty + run_styles(r));
                assert forall|p: int|
                    0 <= p < estyn.len() && p < text.len() && text[p] != '\n' implies style_ok_at(
                    caps,
                    d,
                    p,
                    estyn[p],
                ) by {
                    if p < t0 {
                        assert(estyn[p] == esty[p]);
                    } else {
                        lemma_gap_uncovered(caps, caps.len() as int, p);
                        assert(estyn[p] == Some(d));
                    }
                }
            } else if is_break(c) {
                let r = RunModel { text: st.token, style: d };
                lemma_line_styles_push(st.line, r);
                lemma_lines_styles_push(st.lines, st.line.push(r));
                assert(estyn =~= esty + run_styles(r) + seq![Option::<Style>::None]);
                assert forall|p: int|
                    0 <= p < estyn.len() && p < text.len() && text[p] != '\n' implies style_ok_at(
                    caps,
                    d,
                    p,
                    estyn[p],
                ) by {
                    if p < t0 {
                        assert(estyn[p] == esty[p]);
                    } else if p < i {
                        lemma_gap_uncovered(caps, caps.len() as int, p);
                        assert(estyn[p] == Some(d));
                    }
                }
            } else {
                assert(estyn == esty);
            }
        }
    }
}

/// At a flush that carries the front capture's style (its end, or a line
/// break while it stays active), the pending token lies inside the capture:
/// the flushed positions are annotated by it and by no other capture.
proof fn lemma_flush_active(text: Seq<char>, caps: Seq<Capture>, d: Style, n: int)
    requires
        1 <= n <= text.len(),
        queue_well_formed(caps),
        gaps_without_breaks(text, caps),
        ({
            let st = scan(text, caps, d, n - 1);
            &&& 0 <= st.next < caps.len()
            &&& st.token.len() <= n - 1
            &&& gap_lo(caps, st.next) <= n - 1 - st.token.len()
            &&& (st.token.len() > 0 ==> token_case(caps, n - 1, st))
            &&& (n - 1 == caps[st.next].end || is_break(text[n - 1]))
            &&& n - 1 != caps[st.next].start
        }),
    ensures
        ({
            let st = scan(text, caps, d, n - 1);
            forall|p: int|
                n - 1 - st.token.len() <= p < n - 1 ==> (#[trigger] caps[st.next]).covers(p)
        }),
{
    let st = scan(text, caps, d, n - 1);
    let cap = caps[st.next];
    let i = n - 1;
    let t0 = i - st.token.len();
    assert(cap.start < cap.end);
    if st.token.len() > 0 {
        // the token cannot be gap text here: at the capture's end the gap
        // lies behind, and a break inside the gap is excluded
        if !(cap.start <= t0 && i - 1 < cap.end) {
            assert(i <= cap.start);
            assert(i < cap.start);
            assert(gap_lo(caps, st.next) <= i < cap.start);
            assert(text[i] != '\n');
            assert(i == cap.end);
            assert(false);
        }
        assert forall|p: int| t0 <= p < i implies (#[trigger] caps[st.next]).covers(p) by {
            assert(cap.start <= t0);
            assert(p < cap.end);
        }
    }
}

/// After flushing the pending token with the front capture's style, every
/// emitted position still carries the right style.
proof fn lemma_styles_ok_flush_covered(text: Seq<char>, caps: Seq<Capture>, d: Style, n: int)
    requires
        1 <= n <= text.len(),
        queue_well_formed(caps),
        ({
            let st = scan(text, caps, d, n - 1);
            let esty = lines_styles(st.lines) + line_styles(st.line);
            &&& 0 <= st.next < caps.len()
            &&& st.token.len() <= n - 1
            &&& esty.len() == n - 1 - st.token.len()
            &&& styles_ok(text, caps, d, esty)
            &&& forall|p: int|
                n - 1 - st.token.len() <= p < n - 1 ==> (#[trigger] caps[st.next]).covers(p)
        }),
    ensures
        ({
            let st = scan(text, caps, d, n - 1);
            let esty = lines_styles(st.lines) + line_styles(st.line);
            let r = RunModel { text: st.token, style: caps[st.next].style };
            styles_ok(text, caps, d, esty + run_styles(r))
        }),
{
    let st = scan(text, caps, d, n - 1);
    let esty = lines_styles(st.lines) + line_styles(st.line);
    let t0 = n - 1 - st.token.len();
    let r = RunModel { text: st.token, style: caps[st.next].style };
    let estyn = esty + run_styles(r);
    assert forall|p: int|
        0 <= p < estyn.len() && p < text.len() && text[p] != '\n' implies style_ok_at(
        caps,
        d,
        p,
        estyn[p],
    ) by {
        if p < t0 {
            assert(estyn[p] == esty[p]);
        } else {
            assert(caps[st.next].covers(p));
            assert(estyn[p] == Some(caps[st.next].style));
            assert forall|j: int|
                0 <= j < caps.len() && (#[trigger] caps[j]).covers(p) implies estyn[p] == Some(
                caps[j].style,
            ) by {
                lemma_cover_unique(caps, j, st.next, p);
            }
            assert(covered(caps, p));
        }
    }
}

/// Style fidelity: position by position, a character annotated by a
/// capture comes out in a run carrying that capture's style, and a
/// character annotated by no capture comes out in a run carrying the
/// default style. [`joined_styles`] pairs each position of the rebuilt
/// text ([`joined`], which equals the input) with the style of the run
/// holding it.
///
/// The three premises are what the highlighter guarantees, and they are
/// needed: the scan flushes on every line break with the front capture's
/// style, so a break inside the unannotated gap in front of a capture, or
/// unannotated text trailing a capture that starts beyond the text, would
/// carry that capture's style.
pub proof fn lemma_style_fidelity(text: Seq<char>, caps: Seq<Capture>, d: Style)
    requires
        queue_well_formed(caps),
        gaps_without_breaks(text, caps),
        forall|j: int| 0 <= j < caps.len() ==> (#[trigger] caps[j]).start < text.len(),
    ensures
        joined_styles(spec_build(text, caps, d)).len() == text.len(),
        forall|p: int, j: int|
            0 <= p < text.len() && text[p] != '\n' && 0 <= j < caps.len()
                && #[trigger] caps[j].covers(p) ==> joined_styles(spec_build(text, caps, d))[p]
                == Some(caps[j].style),
        forall|p: int|
            0 <= p < text.len() && (#[trigger] text[p]) != '\n' && !covered(caps, p)
                ==> joined_styles(spec_build(text, caps, d))[p] == Some(d),
{
    let n = text.len() as int;
    lemma_scan_styles(text, caps, d, n);
    lemma_scan_reconstruction(text, caps, d, n);
    let st = scan(text, caps, d, n);
    let esty = lines_styles(st.lines) + line_styles(st.line);
    let t0 = n - st.token.len();
    let style = if active(caps, st) is Some {
        caps[st.next].style
    } else {
        d
    };
    let r = RunModel { text: st.token, style };
    let result = spec_build(text, caps, d);
    assert(result == finish(caps, d, st));
    assert(result.drop_last() =~= st.lines);
    assert(result.last() == st.line.push(r));
    lemma_line_styles_push(st.line, r);
    let sty = joined_styles(result);
    assert(sty =~= esty + run_styles(r));
    if st.token.len() > 0 && active(caps, st) is Some {
        // the trailing token cannot be gap text: the front capture starts
        // inside the text, so the gap in front of it ended before the scan did
        assert(caps[st.next].start < text.len());
        assert(caps[st.next].start <= t0 && n <= caps[st.next].end);
    }
    assert forall|p: int|
        0 <= p < sty.len() && p < text.len() && text[p] != '\n' implies style_ok_at(
        caps,
        d,
        p,
        sty[p],
    ) by {
        if p < t0 {
            assert(sty[p] == esty[p]);
        } else if active(caps, st) is Some {
            assert(caps[st.next].covers(p));
            assert(sty[p] == Some(caps[st.next].style));
            assert forall|j: int|
                0 <= j < caps.len() && (#[trigger] caps[j]).covers(p) implies sty[p] == Some(
                caps[j].style,
            ) by {
                lemma_cover_unique(caps, j, st.next, p);
            }
            assert(covered(caps, p));
        } else {
            lemma_gap_uncovered(caps, caps.len() as int, p);
            assert(sty[p] == Some(d));
        }
    }
    assert forall|p: int, j: int|
        0 <= p < text.len() && text[p] != '\n' && 0 <= j < caps.len() && #[trigger] caps[j].covers(
            p,
        ) implies sty[p] == Some(caps[j].style) by {
        assert(style_ok_at(caps, d, p, sty[p]));
    }
    assert forall|p: int|
        0 <= p < text.len() && (#[trigger] text[p]) != '\n' && !covered(caps, p) implies sty[p]
        == Some(d) by {
        assert(style_ok_at(caps, d, p, sty[p]));
    }
}

/// The scan pops a capture exactly when it processes the character at the
/// capture's end index: after `n` characters, the captures left behind are
/// exactly those whose end lies before `n`.
pub proof fn lemma_pop_times(text: Seq<char>, caps: Seq<Capture>, d: Style, n: int)
    requires
        0 <= n <= text.len(),
        queue_well_formed(caps),
    ensures
        0 <= scan(text, caps, d, n).next <= caps.len(),
        forall|m: int|
            0 <= m < caps.len() ==> (scan(text, caps, d, n).next > m <==> (#[trigger] caps[m]).end
                < n),
    decreases n,
{
    if n > 0 {
        lemma_pop_times(text, caps, d, n - 1);
        let st = scan(text, caps, d, n - 1);
        let stn = scan(text, caps, d, n);
        let i = n - 1;
        assert(stn == scan_step(caps, d, st, i, text[i]));
        if st.next < caps.len() {
            assert(caps[st.next].start < caps[st.next].end);
        }
        assert forall|m: int|
            0 <= m < caps.len() implies (stn.next > m <==> (#[trigger] caps[m]).end < n) by {
            if st.next < caps.len() && m > st.next {
                lemma_queue_ordered(caps, st.next, m);
            }
        }
    }
}

/// The number of line-break characters in `s`.
pub open spec fn break_count(s: Seq<char>) -> int
    decreases s.len(),
{
    if s.len() == 0 {
        0
    } else {
        break_count(s.drop_last()) + (if is_break(s.last()) {
            1int
        } else {
            0int
        })
    }
}

proof fn lemma_break_count_monotone(text: Seq<char>, a: int, b: int)
    requires
        0 <= a <= b <= text.len(),
    ensures
        break_count(text.take(a)) <= break_count(text.take(b)),
    decreases b - a,
{
    if a < b {
        lemma_break_count_monotone(text, a, b - 1);
        assert(text.take(b).drop_last() =~= text.take(b - 1));
    }
}

proof fn lemma_break_count_nonneg(text: Seq<char>, a: int)
    requires
        0 <= a <= text.len(),
    ensures
        0 <= break_count(text.take(a)),
{
    assert(text.take(0) =~= Seq::<char>::empty());
    lemma_break_count_monotone(text, 0, a);
}

/// While no capture starts on a line break, the scan completes exactly one
/// line per line break it consumes.
proof fn lemma_scan_line_count(text: Seq<char>, caps: Seq<Capture>, d: Style, n: int)
    requires
        0 <= n <= text.len(),
        starts_off_breaks(text, caps),
    ensures
        scan(text, caps, d, n).lines.len() == break_count(text.take(n)),
    decreases n,
{
    if n == 0 {
        assert(text.take(0) =~= Seq::<char>::empty());
    } else {
        lemma_scan_line_count(text, caps, d, n - 1);
        let st = scan(text, caps, d, n - 1);
        let stn = scan(text, caps, d, n);
        let i = n - 1;
        let c = text[i];
        assert(stn == scan_step(caps, d, st, i, c));
        assert(text.take(n).drop_last() =~= text.take(n - 1));
        assert(text.take(n).last() == c);
        if active(caps, st) is Some {
            let cap = caps[st.next];
            if i == cap.start {
                assert(text[cap.start as int] != '\n');
            }
        }
    }
}

/// The line `l` holds a run with style `s`.
pub open spec fn has_style(l: Seq<RunModel>, s: Style) -> bool {
    exists|ri: int| 0 <= ri < l.len() && (#[trigger] l[ri]).style == s
}

proof fn lemma_has_style_push(l: Seq<RunModel>, r: RunModel, s: Style)
    requires
        has_style(l, s) || r.style == s,
    ensures
        has_style(l.push(r), s),
{
    if r.style == s {
        assert(l.push(r)[l.len() as int] == r);
    } else {
        let ri = choose|ri: int| 0 <= ri < l.len() && l[ri].style == s;
        assert(l.push(r)[ri] == l[ri]);
    }
}

/// The continuity bookkeeping of the scan, for the capture at index `m`.
/// Once the scan has passed the capture's start, every completed line it
/// has crossed holds a run with the capture's style; once it has passed
/// the capture's end, that holds for the lines up to the one the end falls
/// on, whose styled run sits in the still-open line until it is pushed.
proof fn lemma_scan_continuity(text: Seq<char>, caps: Seq<Capture>, d: Style, m: int, n: int)
    requires
        queue_well_formed(caps),
        starts_off_breaks(text, caps),
        0 <= m < caps.len(),
        caps[m].start < text.len(),
        caps[m].start < n <= text.len(),
    ensures
        ({
            let st = scan(text, caps, d, n);
            let cnt = st.lines.len() as int;
            let lo = break_count(text.take(caps[m].start as int));
            let hi = break_count(text.take(caps[m].end as int));
            if n <= caps[m].end {
                forall|ln: int|
                    lo <= ln < cnt ==> has_style(#[trigger] st.lines[ln], caps[m].style)
            } else {
                &&& cnt >= hi
                &&& forall|ln: int|
                    lo <= ln < (if cnt < hi + 1 {
                        cnt
                    } else {
                        hi + 1
                    }) ==> has_style(#[trigger] st.lines[ln], caps[m].style)
                &&& (cnt == hi ==> has_style(st.line, caps[m].style))
            }
        }),
    decreases n,
{
    let start = caps[m].start as int;
    let end = caps[m].end as int;
    assert(caps[m].start < caps[m].end);
    let st = scan(text, caps, d, n);
    let stp = scan(text, caps, d, n - 1);
    let i = n - 1;
    let c = text[i];
    assert(st == scan_step(caps, d, stp, i, c));
    let lo = break_count(text.take(start));
    lemma_break_count_nonneg(text, start);
    lemma_scan_line_count(text, caps, d, n);
    lemma_scan_line_count(text, caps, d, n - 1);
    lemma_pop_times(text, caps, d, n - 1);
    assert(text.take(n).drop_last() =~= text.take(n - 1));
    assert(text.take(n).last() == c);
    if n == start + 1 {
        // the scan has just taken the capture's first character: no line
        // since the capture's own line is complete yet
        assert(text[start] != '\n');
        assert(st.lines.len() == lo);
    } else {
        lemma_scan_continuity(text, caps, d, m, n - 1);
        let cntp = stp.lines.len() as int;
        let cnt = st.lines.len() as int;
        if m > 0 {
            lemma_queue_ordered(caps, m - 1, m);
        }
        if i < end {
            // the capture is still the front one
            assert(stp.next == m);
            let cap = caps[stp.next];
            assert(cap == caps[m]);
            assert(i != cap.start && i != cap.end);
            if is_break(c) {
                let complete = stp.line.push(RunModel { text: stp.token, style: cap.style });
                lemma_has_style_push(stp.line, RunModel { text: stp.token, style: cap.style }, cap.style);
                assert(st.lines == stp.lines.push(complete));
                assert forall|ln: int|
                    lo <= ln < cnt implies has_style(#[trigger] st.lines[ln], caps[m].style) by {
                    if ln < cntp {
                        assert(st.lines[ln] == stp.lines[ln]);
                    } else {
                        assert(st.lines[ln] == complete);
                    }
                }
            } else {
                assert(st.lines == stp.lines);
            }
        } else if i == end {
            // the capture's last flush: the line the end falls on gets its
            // styled run now, completed or still open
            assert(stp.next == m);
            let cap = caps[stp.next];
            assert(cap == caps[m]);
            assert(i != cap.start);
            let hi = break_count(text.take(end));
            assert(cntp == hi);
            let r = RunModel { text: stp.token, style: cap.style };
            lemma_has_style_push(stp.line, r, cap.style);
            if is_break(c) {
                let complete = stp.line.push(r);
                assert(st.lines == stp.lines.push(complete));
                assert forall|ln: int|
                    lo <= ln < (if cnt < hi + 1 {
                        cnt
                    } else {
                        hi + 1
                    }) implies has_style(#[trigger] st.lines[ln], caps[m].style) by {
                    if ln < cntp {
                        assert(st.lines[ln] == stp.lines[ln]);
                    } else {
                        assert(st.lines[ln] == complete);
                    }
                }
            } else {
                assert(st.lines == stp.lines);
                assert(cnt == hi);
                assert(st.line == stp.line.push(r));
            }
        } else {
            // the capture is finished; its lines are settled
            assert(stp.next > m);
            let hi = break_count(text.take(end));
            lemma_break_count_monotone(text, end, n - 1);
            assert(cntp >= hi);
            assert(cnt >= cntp);
            if st.lines.len() == stp.lines.len() {
                // no line completed this step; the open line only grows
                assert forall|ln: int|
                    lo <= ln < (if cnt < hi + 1 {
                        cnt
                    } else {
                        hi + 1
                    }) implies has_style(#[trigger] st.lines[ln], caps[m].style) by {
                    assert(st.lines[ln] == stp.lines[ln]);
                }
                if cnt == hi {
                    assert(cntp == hi);
                    assert(has_style(stp.line, caps[m].style));
                    if st.line != stp.line {
                        let ri = choose|ri: int|
                            0 <= ri < stp.line.len() && stp.line[ri].style == caps[m].style;
                        assert(st.line[ri] == stp.line[ri]);
                    }
                }
            } else {
                // a line completed: if it is the capture's last line, its
                // styled run rides along in the push
                assert(cnt == cntp + 1);
                assert forall|ln: int|
                    lo <= ln < (if cnt < hi + 1 {
                        cnt
                    } else {
                        hi + 1
                    }) implies has_style(#[trigger] st.lines[ln], caps[m].style) by {
                    if ln < cntp {
                        assert(st.lines[ln] == stp.lines[ln]);
                    } else {
                        assert(ln == cntp && cntp == hi);
                        assert(has_style(stp.line, caps[m].style));
                        let ri = choose|ri: int|
                            0 <= ri < stp.line.len() && stp.line[ri].style == caps[m].style;
                        assert(st.lines[ln][ri] == stp.line[ri]);
                    }
                }
            }
        }
    }
}

/// Multi-line annotation continuity: a capture puts a run with its style on
/// every display line it crosses, from the line its start falls on to the
/// line its (clamped) end falls on; and the scan does not pop it from the
/// queue before processing a character at its end index.
pub proof fn lemma_multiline_continuity(text: Seq<char>, caps: Seq<Capture>, d: Style, m: int)
    requires
        queue_well_formed(caps),
        starts_off_breaks(text, caps),
        0 <= m < caps.len(),
        caps[m].start < text.len(),
    ensures
        ({
            let result = spec_build(text, caps, d);
            let lo = break_count(text.take(caps[m].start as int));
            let hi = break_count(
                text.take(
                    if caps[m].end <= text.len() {
                        caps[m].end as int
                    } else {
                        text.len() as int
                    },
                ),
            );
            forall|ln: int|
                lo <= ln <= hi ==> 0 <= ln < result.len() && has_style(
                    #[trigger] result[ln],
                    caps[m].style,
                )
        }),
        forall|n: int|
            0 <= n <= text.len() && n <= caps[m].end ==> scan(text, caps, d, n).next <= m,
{
    let len = text.len() as int;
    let start = caps[m].start as int;
    let end = caps[m].end as int;
    assert(caps[m].start < caps[m].end);
    let st = scan(text, caps, d, len);
    let result = spec_build(text, caps, d);
    let lo = break_count(text.take(start));
    let hi = break_count(
        text.take(
            if end <= len {
                end
            } else {
                len
            },
        ),
    );
    lemma_break_count_nonneg(text, start);
    lemma_scan_continuity(text, caps, d, m, len);
    lemma_scan_line_count(text, caps, d, len);
    lemma_pop_times(text, caps, d, len);
    let cnt = st.lines.len() as int;
    let style = if active(caps, st) is Some {
        caps[st.next].style
    } else {
        d
    };
    let r = RunModel { text: st.token, style };
    assert(result == st.lines.push(st.line.push(r)));
    assert(text.take(len) =~= text);
    if m > 0 {
        lemma_queue_ordered(caps, m - 1, m);
    }
    if end >= len {
        // the scan ended inside the capture: the trailing flush styles the
        // last line with it
        assert(st.next == m);
        assert(style == caps[m].style);
        assert(hi == cnt);
        lemma_has_style_push(st.line, r, caps[m].style);
        assert forall|ln: int|
            lo <= ln <= hi implies 0 <= ln < result.len() && has_style(
                #[trigger] result[ln],
                caps[m].style,
            ) by {
            if ln < cnt {
                assert(result[ln] == st.lines[ln]);
            } else {
                assert(result[ln] == st.line.push(r));
            }
        }
    } else {
        lemma_break_count_monotone(text, end, len);
        assert(cnt >= hi);
        assert forall|ln: int|
            lo <= ln <= hi implies 0 <= ln < result.len() && has_style(
                #[trigger] result[ln],
                caps[m].style,
            ) by {
            if ln < cnt {
                assert(result[ln] == st.lines[ln]);
            } else {
                assert(ln == cnt && cnt == hi);
                assert(has_style(st.line, caps[m].style));
                let ri = choose|ri: int|
                    0 <= ri < st.line.len() && st.line[ri].style == caps[m].style;
                assert(result[ln] == st.line.push(r));
                assert(result[ln][ri] == st.line[ri]);
            }
        }
    }
    assert forall|n: int|
        0 <= n <= text.len() && n <= caps[m].end implies scan(text, caps, d, n).next <= m by {
        lemma_pop_times(text, caps, d, n);
    }
}

/// No capture in `caps` starts at a line-break character of `text`. A
/// capture whose range begins exactly on a line break buffers that break
/// into a run, so this is the precise condition under which no run holds
/// a line break.
pub open spec fn starts_off_breaks(text: Seq<char>, caps: Seq<Capture>) -> bool {
    forall|j: int|
        0 <= j < caps.len() && (#[trigger] caps[j]).start < text.len() ==> text[caps[j].start as int]
            != '\n'
}

/// No run of any line in `ls` contains a line-break character.
pub open spec fn no_break_in_runs(ls: Seq<Seq<RunModel>>) -> bool {
    forall|li: int, ri: int, ci: int|
        0 <= li < ls.len() && 0 <= ri < ls[li].len() && 0 <= ci < ls[li][ri].text.len() ==> (
        #[trigger] ls[li][ri].text[ci]) != '\n'
}

/// No run of the single line `l` contains a line-break character.
pub open spec fn clean_line(l: Seq<RunModel>) -> bool {
    forall|ri: int, ci: int|
        0 <= ri < l.len() && 0 <= ci < l[ri].text.len() ==> (#[trigger] l[ri].text[ci]) != '\n'
}

/// No character of `s` is a line break.
pub open spec fn clean_text(s: Seq<char>) -> bool {
    forall|ci: int| 0 <= ci < s.len() ==> (#[trigger] s[ci]) != '\n'
}

/// While no capture starts on a line break, every accumulator of the scan
/// stays free of line breaks.
proof fn lemma_scan_no_breaks(text: Seq<char>, caps: Seq<Capture>, d: Style, n: int)
    requires
        0 <= n <= text.len(),
        starts_off_breaks(text, caps),
    ensures
        no_break_in_runs(scan(text, caps, d, n).lines),
        clean_line(scan(text, caps, d, n).line),
        clean_text(scan(text, caps, d, n).token),
    decreases n,
{
    if n > 0 {
        lemma_scan_no_breaks(text, caps, d, n - 1);
        let st = scan(text, caps, d, n - 1);
        let c = text[n - 1];
        let stn = scan(text, caps, d, n);
        assert(stn == scan_step(caps, d, st, n - 1, c));
        if active(caps, st) is Some {
            let cap = active(caps, st)->Some_0;
            if n - 1 == cap.start {
                assert(text[cap.start as int] != '\n');
            }
        }
        assert(clean_text(stn.token));
        assert(clean_line(stn.line));
        assert(no_break_in_runs(stn.lines));
    }
}

/// No run crosses a line break: every run of a build holds zero line-break
/// characters, for any queue whose captures do not start exactly on a line
/// break. (The line break that ends a line is consumed as a separator and
/// belongs to no run.)
pub proof fn lemma_no_run_crosses_break(text: Seq<char>, caps: Seq<Capture>, d: Style)
    requires
        starts_off_breaks(text, caps),
    ensures
        no_break_in_runs(spec_build(text, caps, d)),
{
    let n = text.len() as int;
    lemma_scan_no_breaks(text, caps, d, n);
    let st = scan(text, caps, d, n);
    let result = spec_build(text, caps, d);
    assert(result == finish(caps, d, st));
    assert(no_break_in_runs(result));
}

/// The build returns exactly one line per line break in the text, plus the
/// line the unconditional trailing flush completes. An input that ends on a
/// line break therefore closes with one extra empty line; that artifact is
/// kept deliberately.
pub proof fn lemma_line_count(text: Seq<char>, caps: Seq<Capture>, d: Style)
    requires
        starts_off_breaks(text, caps),
    ensures
        spec_build(text, caps, d).len() == break_count(text) + 1,
{
    let n = text.len() as int;
    lemma_scan_line_count(text, caps, d, n);
    assert(text.take(n) =~= text);
}

/// Empty input: the build of an empty text with an empty queue is exactly
/// one line holding one empty default-styled run.
pub proof fn lemma_empty_input(d: Style)
    ensures
        spec_build(Seq::empty(), Seq::empty(), d) == seq![
            seq![(RunModel { text: Seq::<char>::empty(), style: d })],
        ],
{
    let result = spec_build(Seq::<char>::empty(), Seq::<Capture>::empty(), d);
    assert(result =~~= seq![seq![(RunModel { text: Seq::<char>::empty(), style: d })]]);
}

/// Reconstruction: joining the run texts of every line of a build, with one
/// line break between consecutive lines, reproduces the input text exactly,
/// whatever the capture queue holds. The unconditional trailing flush makes
/// an input that ends on a line break close with one extra empty line; the
/// join above still reproduces the text exactly.
pub proof fn lemma_reconstruction(text: Seq<char>, caps: Seq<Capture>, d: Style)
    ensures
        joined(spec_build(text, caps, d)) == text,
{
    let n = text.len() as int;
    lemma_scan_reconstruction(text, caps, d, n);
    let st = scan(text, caps, d, n);
    let style = if active(caps, st) is Some {
        active(caps, st)->Some_0.style
    } else {
        d
    };
    let last_run = RunModel { text: st.token, style };
    let result = spec_build(text, caps, d);
    assert(result == finish(caps, d, st));
    assert(result.drop_last() =~= st.lines);
    assert(result.last() == st.line.push(last_run));
    lemma_line_text_push(st.line, last_run);
    assert(text.take(n) =~= text);
    assert(joined(result) =~= text);
}

} // verus!
