//! Grouping of extracted page characters into spans and lines.
//!
//! A span is a run of characters sharing font name, weight, unscaled size
//! and rotation; a line is a run of same-rotation spans on one baseline. A
//! span terminates the current line when its rotation differs, when it
//! starts below the line's bottom edge, or when its text ends with a line
//! feed or STX. A closed line's accumulated text gets the character-level
//! repair of `crate::text`.

use vstd::prelude::*;
use vstd::string::StringExecFns;

use crate::entities::{CharSpan, Line};
use crate::geom::BBox;
use crate::text::{fix_utf8_corruption, spec_fix_utf8, str_to_chars};

verus! {

/// One extracted character, in page coordinates (y growing downward):
/// its text, tight and loose bounds, font and source index.
#[derive(Debug, Clone)]
pub struct PageChar {
    pub text: String,
    pub tight_bounds: BBox,
    pub loose_bounds: BBox,
    pub font_name: String,
    pub font_size: i64,
    pub font_weight: Option<i32>,
    pub rotation: i32,
    pub index: usize,
}

/// Mathematical model of a `PageChar`.
pub struct PageCharV {
    pub text: Seq<char>,
    pub tight_bounds: BBox,
    pub loose_bounds: BBox,
    pub font_name: Seq<char>,
    pub font_size: i64,
    pub font_weight: Option<i32>,
    pub rotation: i32,
    pub index: usize,
}

impl View for PageChar {
    type V = PageCharV;

    open spec fn view(&self) -> PageCharV {
        PageCharV {
            text: self.text@,
            tight_bounds: self.tight_bounds,
            loose_bounds: self.loose_bounds,
            font_name: self.font_name@,
            font_size: self.font_size,
            font_weight: self.font_weight,
            rotation: self.rotation,
            index: self.index,
        }
    }
}

/// Mathematical model of a `CharSpan`.
pub struct CharSpanV {
    pub bbox: BBox,
    pub text: Seq<char>,
    pub rotation: i32,
    pub font_name: Seq<char>,
    pub font_size: i64,
    pub font_weight: Option<i32>,
    pub char_start_idx: usize,
    pub char_end_idx: usize,
}

impl View for CharSpan {
    type V = CharSpanV;

    open spec fn view(&self) -> CharSpanV {
        CharSpanV {
            bbox: self.bbox,
            text: self.text@,
            rotation: self.rotation,
            font_name: self.font_name@,
            font_size: self.font_size,
            font_weight: self.font_weight,
            char_start_idx: self.char_start_idx,
            char_end_idx: self.char_end_idx,
        }
    }
}

/// Mathematical model of a `Line`.
pub struct LineV {
    pub text: Seq<char>,
    pub bbox: BBox,
    pub rotation: i32,
    pub spans: Seq<CharSpanV>,
}

impl View for Line {
    type V = LineV;

    open spec fn view(&self) -> LineV {
        LineV {
            text: self.text@,
            bbox: self.bbox,
            rotation: self.rotation,
            spans: self.spans@.map_values(|s: CharSpan| s@),
        }
    }
}

/// Whether a character continues a span: font name, weight, unscaled size
/// and rotation all match.
pub open spec fn spec_span_matches(s: CharSpanV, c: PageCharV) -> bool {
    &&& c.font_size == s.font_size
    &&& c.font_name == s.font_name
    &&& c.font_weight == s.font_weight
    &&& c.rotation == s.rotation
}

/// The span a single character opens: the character's tight bounds and its
/// repaired text.
pub open spec fn spec_span_of_char(c: PageCharV) -> CharSpanV {
    CharSpanV {
        bbox: c.tight_bounds,
        text: spec_fix_utf8(c.text),
        rotation: c.rotation,
        font_name: c.font_name,
        font_size: c.font_size,
        font_weight: c.font_weight,
        char_start_idx: c.index,
        char_end_idx: c.index,
    }
}

/// A span after one more character: repaired text appended, the loose
/// bounds merged in, the end index advanced.
pub open spec fn spec_span_extend(s: CharSpanV, c: PageCharV) -> CharSpanV {
    CharSpanV {
        bbox: s.bbox.spec_merge(c.loose_bounds),
        text: s.text + spec_fix_utf8(c.text),
        char_end_idx: c.index,
        ..s
    }
}

impl Clone for CharSpan {
    fn clone(&self) -> (r: Self)
        ensures
            r@ == self@,
    {
        CharSpan {
            bbox: self.bbox,
            text: self.text.clone(),
            rotation: self.rotation,
            font_name: self.font_name.clone(),
            font_size: self.font_size,
            font_weight: self.font_weight,
            char_start_idx: self.char_start_idx,
            char_end_idx: self.char_end_idx,
        }
    }
}

impl Clone for Line {
    fn clone(&self) -> (r: Self)
        ensures
            r@ == self@,
    {
        let mut spans: Vec<CharSpan> = Vec::new();
        let mut i: usize = 0;
        while i < self.spans.len()
            invariant
                spans@.len() == i <= self.spans@.len(),
                forall|k: int| 0 <= k < i ==> (#[trigger] spans@[k])@ == self.spans@[k]@,
            decreases self.spans@.len() - i,
        {
            spans.push(self.spans[i].clone());
            i += 1;
        }
        proof {
            assert(spans@.map_values(|s: CharSpan| s@) =~= self.spans@.map_values(
                |s: CharSpan| s@,
            ));
        }
        Line { text: self.text.clone(), bbox: self.bbox, rotation: self.rotation, spans }
    }
}

impl CharSpan {
    /// Open a span from one character.
    pub fn new_from_char(c: &PageChar) -> (r: Self)
        ensures
            r@ == spec_span_of_char(c@),
    {
        CharSpan {
            bbox: c.tight_bounds,
            text: fix_utf8_corruption(c.text.as_str()),
            font_name: c.font_name.clone(),
            font_weight: c.font_weight,
            font_size: c.font_size,
            rotation: c.rotation,
            char_start_idx: c.index,
            char_end_idx: c.index,
        }
    }

    /// Append a character if it matches the span's font and rotation;
    /// `None` leaves the span untouched and tells the caller to open a
    /// new one.
    pub fn append(&mut self, c: &PageChar) -> (r: Option<()>)
        ensures
            !spec_span_matches(old(self)@, c@) ==> (r is None && *final(self) == *old(self)),
            spec_span_matches(old(self)@, c@) ==> (r is Some && final(self)@ == spec_span_extend(
                old(self)@,
                c@,
            )),
    {
        let weight_matches = match (self.font_weight, c.font_weight) {
            (None, None) => true,
            (Some(a), Some(b)) => a == b,
            _ => false,
        };
        if self.font_size != c.font_size || !(self.font_name == c.font_name) || !weight_matches
            || self.rotation != c.rotation {
            None
        } else {
            let cleaned = fix_utf8_corruption(c.text.as_str());
            self.text.append(cleaned.as_str());
            self.char_end_idx = c.index;
            self.bbox.merge(&c.loose_bounds);
            Some(())
        }
    }
}

/// The spans a character stream folds into: each character either extends
/// the last span or opens a new one.
pub open spec fn spec_parse_spans(cs: Seq<PageCharV>) -> Seq<CharSpanV>
    decreases cs.len(),
{
    if cs.len() == 0 {
        Seq::empty()
    } else {
        let prev = spec_parse_spans(cs.drop_last());
        let c = cs.last();
        if prev.len() == 0 {
            seq![spec_span_of_char(c)]
        } else if spec_span_matches(prev.last(), c) {
            prev.update(prev.len() - 1, spec_span_extend(prev.last(), c))
        } else {
            prev.push(spec_span_of_char(c))
        }
    }
}

/// Group characters into spans of constant font name, weight, size and
/// rotation, in source order.
pub fn parse_text_spans(chars: &Vec<PageChar>) -> (r: Vec<CharSpan>)
    ensures
        r@.map_values(|s: CharSpan| s@) == spec_parse_spans(chars@.map_values(|c: PageChar| c@)),
{
    let mut spans: Vec<CharSpan> = Vec::new();
    let mut i: usize = 0;
    while i < chars.len()
        invariant
            0 <= i <= chars@.len(),
            spans@.map_values(|s: CharSpan| s@) == spec_parse_spans(
                chars@.take(i as int).map_values(|c: PageChar| c@),
            ),
        decreases chars@.len() - i,
    {
        let ghost prefix = chars@.take(i as int).map_values(|c: PageChar| c@);
        let ghost next = chars@.take(i + 1).map_values(|c: PageChar| c@);
        proof {
            assert(next.drop_last() =~= prefix);
            assert(next.last() == chars@[i as int]@);
        }
        let c = &chars[i];
        if spans.len() == 0 {
            spans.push(CharSpan::new_from_char(c));
        } else {
            let n = spans.len();
            let mut last = match spans.pop() {
                Some(s) => s,
                None => CharSpan::new_from_char(c),
            };
            let appended = last.append(c);
            spans.push(last);
            if appended.is_none() {
                spans.push(CharSpan::new_from_char(c));
            }
        }
        proof {
            assert(spans@.map_values(|s: CharSpan| s@) =~= spec_parse_spans(next));
        }
        i += 1;
    }
    proof {
        assert(chars@.take(chars@.len() as int) =~= chars@);
    }
    spans
}

/// The union of a non-empty run of boxes, folded left to right.
pub open spec fn spec_fold_bbox(bs: Seq<BBox>) -> BBox
    recommends
        bs.len() > 0,
    decreases bs.len(),
{
    if bs.len() <= 1 {
        bs[0]
    } else {
        spec_fold_bbox(bs.drop_last()).spec_merge(bs.last())
    }
}

/// A line's closure invariant: at least one span, and the line's box is
/// the union of its spans' boxes — except that spans preceding a
/// zero-extent opener (a line break) are left out, the box having adopted
/// the first real span's box wholesale.
pub open spec fn spec_line_wf(l: LineV) -> bool {
    &&& l.spans.len() >= 1
    &&& l.bbox.wf()
    &&& forall|i: int| 0 <= i < l.spans.len() ==> (#[trigger] l.spans[i]).bbox.wf()
    &&& exists|k: int|
        0 <= k < l.spans.len() && l.bbox == spec_fold_bbox(
            (#[trigger] l.spans.skip(k)).map_values(|s: CharSpanV| s.bbox),
        )
}

/// Whether a span terminates the line: rotation differs, the span starts
/// below the line's bottom edge, or the span's text ends with a line feed
/// or STX.
pub open spec fn spec_line_closes(l: LineV, s: CharSpanV) -> bool {
    ||| s.rotation != l.rotation
    ||| s.bbox.y0 > l.bbox.y1
    ||| (s.text.len() > 0 && (s.text.last() == '\n' || s.text.last() == '\x02'))
}

/// The line a single span opens.
pub open spec fn spec_line_of_span(s: CharSpanV) -> LineV {
    LineV { text: s.text, bbox: s.bbox, rotation: s.rotation, spans: seq![s] }
}

/// A closed line: its accumulated text repaired, everything else kept.
pub open spec fn spec_line_closed(l: LineV) -> LineV {
    LineV { text: spec_fix_utf8(l.text), ..l }
}

/// A line after absorbing one more span: text concatenated, the span
/// appended; a zero-extent line box (opened by a line break) adopts the
/// span's box wholesale, otherwise the boxes merge.
pub open spec fn spec_line_extend(l: LineV, s: CharSpanV) -> LineV {
    let bb = if l.bbox.spec_height() == 0 || l.bbox.spec_width() == 0 {
        s.bbox
    } else {
        l.bbox.spec_merge(s.bbox)
    };
    LineV { text: l.text + s.text, bbox: bb, rotation: l.rotation, spans: l.spans.push(s) }
}

impl Line {
    /// Open a line from its first span.
    pub fn new_from_span(span: CharSpan) -> (r: Self)
        ensures
            r@ == spec_line_of_span(span@),
            span.bbox.wf() ==> spec_line_wf(r@),
    {
        let r = Line {
            bbox: span.bbox,
            text: span.text.clone(),
            rotation: span.rotation,
            spans: vec![span],
        };
        proof {
            assert(r@.spans =~= seq![span@]);
            assert(r@.spans.skip(0) =~= r@.spans);
            assert(r@.spans.skip(0).map_values(|s: CharSpanV| s.bbox) =~= seq![span@.bbox]);
            assert(r@ == spec_line_of_span(span@));
        }
        r
    }

    /// Try to absorb a span. On a terminating span the line closes — its
    /// text is repaired in place — and the span comes back to open the
    /// next line. Closure keeps the invariant, since only the text
    /// changes.
    pub fn append(&mut self, span: CharSpan) -> (r: Result<(), CharSpan>)
        requires
            old(self).bbox.wf(),
        ensures
            spec_line_closes(old(self)@, span@) ==> (r matches Err(sp) && sp == span
                && final(self)@ == spec_line_closed(old(self)@)),
            !spec_line_closes(old(self)@, span@) ==> (r is Ok && final(self)@ == spec_line_extend(
                old(self)@,
                span@,
            )),
            spec_line_wf(old(self)@) && span.bbox.wf() ==> spec_line_wf(final(self)@),
    {
        let span_chars = str_to_chars(span.text.as_str());
        let ends_break = if span_chars.len() > 0 {
            let lastc = span_chars[span_chars.len() - 1];
            lastc == '\n' || lastc == '\x02'
        } else {
            false
        };
        proof {
            assert(span_chars@.len() > 0 ==> span_chars@[span_chars@.len() - 1] == span.text@.last());
        }
        if span.rotation != self.rotation || span.bbox.y0 > self.bbox.y1 || ends_break {
            let repaired = fix_utf8_corruption(self.text.as_str());
            self.text = repaired;
            proof {
                assert(final(self)@.spans =~= old(self)@.spans);
                assert(final(self)@ == spec_line_closed(old(self)@));
            }
            Err(span)
        } else {
            let ghost oldv = old(self)@;
            let ghost spanv = span@;
            if self.bbox.height() == 0 || self.bbox.width() == 0 {
                self.bbox = span.bbox;
            } else {
                self.bbox.merge(&span.bbox);
            }
            self.text.append(span.text.as_str());
            self.spans.push(span);
            proof {
                assert(final(self)@.spans =~= oldv.spans.push(spanv));
                assert(final(self)@ == spec_line_extend(oldv, spanv));
                if spec_line_wf(oldv) && spanv.bbox.wf() {
                    lemma_line_extend_wf(oldv, spanv);
                }
            }
            Ok(())
        }
    }
}

/// Absorbing a span preserves the line invariant: the extended fold picks
/// up the new span's box, and a zero-extent line box is replaced by the
/// span's box alone.
proof fn lemma_line_extend_wf(l: LineV, s: CharSpanV)
    requires
        spec_line_wf(l),
        s.bbox.wf(),
    ensures
        spec_line_wf(spec_line_extend(l, s)),
{
    let ext = spec_line_extend(l, s);
    let newboxes = ext.spans.map_values(|sp: CharSpanV| sp.bbox);
    if l.bbox.spec_height() == 0 || l.bbox.spec_width() == 0 {
        let k = ext.spans.len() - 1;
        assert(ext.spans.skip(k) =~= seq![s]);
        assert(ext.spans.skip(k).map_values(|sp: CharSpanV| sp.bbox) =~= seq![s.bbox]);
        assert(spec_fold_bbox(seq![s.bbox]) == s.bbox);
    } else {
        let k = choose|k: int|
            0 <= k < l.spans.len() && l.bbox == spec_fold_bbox(
                (#[trigger] l.spans.skip(k)).map_values(|sp: CharSpanV| sp.bbox),
            );
        let oldtail = l.spans.skip(k).map_values(|sp: CharSpanV| sp.bbox);
        let newtail = ext.spans.skip(k).map_values(|sp: CharSpanV| sp.bbox);
        assert(newtail =~= oldtail.push(s.bbox));
        assert(newtail.drop_last() =~= oldtail);
        assert(newtail.len() >= 2);
        assert(spec_fold_bbox(newtail) == spec_fold_bbox(oldtail).spec_merge(s.bbox));
    }
}

/// The lines a span stream folds into: each span either extends the open
/// line or closes it (repairing its text) and opens the next.
pub open spec fn spec_parse_lines(ss: Seq<CharSpanV>) -> Seq<LineV>
    decreases ss.len(),
{
    if ss.len() == 0 {
        Seq::empty()
    } else {
        let prev = spec_parse_lines(ss.drop_last());
        let s = ss.last();
        if prev.len() == 0 {
            seq![spec_line_of_span(s)]
        } else if spec_line_closes(prev.last(), s) {
            prev.update(prev.len() - 1, spec_line_closed(prev.last())).push(spec_line_of_span(s))
        } else {
            prev.update(prev.len() - 1, spec_line_extend(prev.last(), s))
        }
    }
}

/// Group spans into lines in source order. Every produced line satisfies
/// the line invariant (`spec_line_wf`), provided every span's box is
/// well-formed.
pub fn parse_text_lines(spans: Vec<CharSpan>) -> (r: Vec<Line>)
    requires
        forall|i: int| 0 <= i < spans@.len() ==> (#[trigger] spans@[i]).bbox.wf(),
    ensures
        r@.map_values(|l: Line| l@) == spec_parse_lines(spans@.map_values(|s: CharSpan| s@)),
        forall|i: int| 0 <= i < r@.len() ==> spec_line_wf((#[trigger] r@[i])@),
{
    let mut lines: Vec<Line> = Vec::new();
    let mut i: usize = 0;
    while i < spans.len()
        invariant
            0 <= i <= spans@.len(),
            forall|k: int| 0 <= k < spans@.len() ==> (#[trigger] spans@[k]).bbox.wf(),
            lines@.map_values(|l: Line| l@) == spec_parse_lines(
                spans@.take(i as int).map_values(|s: CharSpan| s@),
            ),
            forall|k: int| 0 <= k < lines@.len() ==> spec_line_wf((#[trigger] lines@[k])@),
        decreases spans@.len() - i,
    {
        let ghost prefix = spans@.take(i as int).map_values(|s: CharSpan| s@);
        let ghost nextsq = spans@.take(i + 1).map_values(|s: CharSpan| s@);
        proof {
            assert(nextsq.drop_last() =~= prefix);
            assert(nextsq.last() == spans@[i as int]@);
        }
        let span = spans[i].clone();
        proof {
            assert(span@ == spans@[i as int]@);
        }
        if lines.len() == 0 {
            lines.push(Line::new_from_span(span));
        } else {
            let mut lastline = match lines.pop() {
                Some(l) => l,
                None => Line::new_from_span(span.clone()),
            };
            match lastline.append(span) {
                Ok(()) => {
                    lines.push(lastline);
                },
                Err(sp) => {
                    lines.push(lastline);
                    lines.push(Line::new_from_span(sp));
                },
            }
        }
        proof {
            assert(lines@.map_values(|l: Line| l@) =~= spec_parse_lines(nextsq));
        }
        i += 1;
    }
    proof {
        assert(spans@.take(spans@.len() as int) =~= spans@);
    }
    lines
}

} // verus!
