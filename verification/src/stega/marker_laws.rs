//! What holds of the marker steganographer: a text that it disguises gives
//! the encoded secret back when it is revealed.
//!
//! The proofs look at a carrier text as a list of segments: plain characters,
//! and runs of characters between the delimiters of one marker.

use vstd::prelude::*;
use crate::stega::markdown::{
    MarkdownSteganographer,
    acceptable,
    fused,
    located,
    next_span,
    overlapping,
    revealed_tokens,
    scanned,
    singles,
    span_at,
    spliced,
    start_of,
    MarkerView,
    Span,
};
use crate::chars::{alphabetic, alphabetic_count};
use crate::stega::{
    carried_char,
    consumed,
    symbols_of,
    takes_symbol,
    token_symbols,
    wrapped,
    wrapped_char,
    ParsedInputType,
    Token,
};
use crate::codecs::char_codec::{
    canonical,
    follows,
    has_shared_letter,
    law_round_trip,
    law_round_trip_v2,
    lemma_encoded_shape,
    lemma_read_back,
    letters_of,
    upper_case,
    CharCodec,
    CharCodecV2,
    Version,
};
use crate::{decoded, encoded, BaconCodec, Symbol};
use crate::text::{
    contains,
    lemma_occurrence_parts,
    lemma_without_advance,
    lemma_without_shift,
    without,
    first_occurrence,
    lemma_first_occurrence,
    lemma_first_occurrence_advance,
    lemma_first_occurrence_shift,
    lemma_occurrence_chars,
    lemma_occurs_in_front,
    lemma_occurs_shift,
    moved,
    occurs_at,
};

verus! {

/// A piece of a carrier text.
pub enum Segment {
    /// A character outside every marker.
    Plain(char),
    /// Characters between the start and the end delimiter of the marker of
    /// one substitution value.
    Run(ParsedInputType, Seq<char>),
}

/// All characters of the delimiters of two markers.
pub open spec fn delimiter_chars(a: MarkerView, b: MarkerView) -> Seq<char> {
    a.start_string() + a.end_string() + b.start_string() + b.end_string()
}

/// Whether a character stands in no delimiter.
pub open spec fn clean_char(c: char, a: MarkerView, b: MarkerView) -> bool {
    !delimiter_chars(a, b).contains(c)
}

/// Whether no character of a text stands in a delimiter.
pub open spec fn clean(text: Seq<char>, a: MarkerView, b: MarkerView) -> bool {
    forall|i: int| 0 <= i < text.len() ==> clean_char(#[trigger] text[i], a, b)
}

/// Whether a marker is undefined or has two delimiters that are not empty.
pub open spec fn solid(marker: MarkerView) -> bool {
    marker.is_empty() || (marker.is_full() && marker.start->0.len() > 0 && marker.end->0.len()
        > 0)
}

/// The marker of a substitution value.
pub open spec fn marker_of(tp: ParsedInputType, a: MarkerView, b: MarkerView) -> MarkerView {
    if tp == ParsedInputType::A {
        a
    } else {
        b
    }
}

/// Whether a segment is well formed: a plain character is clean, and a run
/// belongs to a defined marker and holds clean characters, at least one.
pub open spec fn good_segment(segment: Segment, a: MarkerView, b: MarkerView) -> bool {
    match segment {
        Segment::Plain(c) => clean_char(c, a, b),
        Segment::Run(tp, content) => {
            &&& tp == ParsedInputType::A || tp == ParsedInputType::B
            &&& marker_of(tp, a, b).is_full()
            &&& content.len() > 0
            &&& clean(content, a, b)
        },
    }
}

/// Whether every segment of a list is well formed.
pub open spec fn good(segments: Seq<Segment>, a: MarkerView, b: MarkerView) -> bool {
    forall|i: int| 0 <= i < segments.len() ==> good_segment(#[trigger] segments[i], a, b)
}

/// The text of a segment.
pub open spec fn rendered(segment: Segment, a: MarkerView, b: MarkerView) -> Seq<char> {
    match segment {
        Segment::Plain(c) => seq![c],
        Segment::Run(tp, content) => marker_of(tp, a, b).start_string() + content + marker_of(
            tp,
            a,
            b,
        ).end_string(),
    }
}

/// The text of a list of segments.
pub open spec fn rendered_all(segments: Seq<Segment>, a: MarkerView, b: MarkerView) -> Seq<char>
    decreases segments.len(),
{
    if segments.len() == 0 {
        Seq::empty()
    } else {
        rendered(segments[0], a, b) + rendered_all(segments.drop_first(), a, b)
    }
}

/// The runs of a list of segments as pieces, in order.
pub open spec fn run_tokens(segments: Seq<Segment>) -> Seq<Token>
    decreases segments.len(),
{
    if segments.len() == 0 {
        Seq::empty()
    } else {
        match segments[0] {
            Segment::Plain(_) => run_tokens(segments.drop_first()),
            Segment::Run(tp, content) => seq![Token { text: content, tp }] + run_tokens(
                segments.drop_first(),
            ),
        }
    }
}

/// A marked piece moved forward by `by` positions.
pub open spec fn moved_span(span: Option<Span>, by: int) -> Option<Span> {
    match span {
        Some(s) => Some(
            Span {
                tp: s.tp,
                content_from: s.content_from + by,
                content_to: s.content_to + by,
                next: s.next + by,
            },
        ),
        None => None,
    }
}

/// Every character of a delimiter is a delimiter character.
pub proof fn lemma_delimiter_chars(a: MarkerView, b: MarkerView)
    ensures
        forall|k: int|
            0 <= k < a.start_string().len() ==> delimiter_chars(a, b).contains(
                #[trigger] a.start_string()[k],
            ),
        forall|k: int|
            0 <= k < a.end_string().len() ==> delimiter_chars(a, b).contains(
                #[trigger] a.end_string()[k],
            ),
        forall|k: int|
            0 <= k < b.start_string().len() ==> delimiter_chars(a, b).contains(
                #[trigger] b.start_string()[k],
            ),
        forall|k: int|
            0 <= k < b.end_string().len() ==> delimiter_chars(a, b).contains(
                #[trigger] b.end_string()[k],
            ),
{
    let all = delimiter_chars(a, b);
    let n1 = a.start_string().len() as int;
    let n2 = n1 + a.end_string().len();
    let n3 = n2 + b.start_string().len();
    assert forall|k: int| 0 <= k < a.start_string().len() implies all.contains(
        #[trigger] a.start_string()[k],
    ) by {
        assert(all[k] == a.start_string()[k]);
    }
    assert forall|k: int| 0 <= k < a.end_string().len() implies all.contains(
        #[trigger] a.end_string()[k],
    ) by {
        assert(all[n1 + k] == a.end_string()[k]);
    }
    assert forall|k: int| 0 <= k < b.start_string().len() implies all.contains(
        #[trigger] b.start_string()[k],
    ) by {
        assert(all[n2 + k] == b.start_string()[k]);
    }
    assert forall|k: int| 0 <= k < b.end_string().len() implies all.contains(
        #[trigger] b.end_string()[k],
    ) by {
        assert(all[n3 + k] == b.end_string()[k]);
    }
}

/// Whether every character of a text is a delimiter character.
pub open spec fn dirty(text: Seq<char>, a: MarkerView, b: MarkerView) -> bool {
    forall|k: int| 0 <= k < text.len() ==> delimiter_chars(a, b).contains(#[trigger] text[k])
}

/// An occurrence of a text of delimiter characters covers no clean character.
pub proof fn lemma_covers_no_clean(
    text: Seq<char>,
    pattern: Seq<char>,
    at: int,
    i: int,
    a: MarkerView,
    b: MarkerView,
)
    requires
        dirty(pattern, a, b),
        occurs_at(text, pattern, at),
        at <= i < at + pattern.len(),
    ensures
        !clean_char(text[i], a, b),
{
    lemma_occurrence_chars(text, pattern, at, i);
    assert(delimiter_chars(a, b).contains(pattern[i - at]));
}

/// Where a marked piece is found, its positions lie in the text, in order.
pub proof fn lemma_span_bounds(
    text: Seq<char>,
    marker: MarkerView,
    tp: ParsedInputType,
    at: int,
)
    requires
        0 <= at,
        at + marker.start_string().len() <= text.len(),
    ensures
        match span_at(text, marker, tp, at) {
            Some(span) => at + marker.start_string().len() == span.content_from
                <= span.content_to <= span.next <= text.len() && span.content_from < span.next
                && span.tp == tp,
            None => true,
        },
{
    let begin = at + marker.start_string().len();
    match marker.end {
        Some(e) => {
            lemma_first_occurrence(text, e, begin);
        },
        None => {},
    }
}

/// The start delimiter that a search from a position finds lies in the text
/// at or behind that position.
pub proof fn lemma_start_bounds(marker: MarkerView, text: Seq<char>, from: int)
    requires
        0 <= from,
    ensures
        match start_of(marker, text, from) {
            Some(at) => from <= at && at + marker.start_string().len() <= text.len()
                && occurs_at(text, marker.start_string(), at),
            None => true,
        },
{
    match marker.start {
        Some(s) => {
            lemma_first_occurrence(text, s, from);
        },
        None => {},
    }
}

/// The first marked piece in the second part of a text is the first marked
/// piece of that part alone.
pub proof fn lemma_next_span_shift(
    x: Seq<char>,
    y: Seq<char>,
    a: MarkerView,
    b: MarkerView,
    k: int,
)
    requires
        0 <= k,
    ensures
        next_span(x + y, a, b, x.len() + k) == moved_span(next_span(y, a, b, k), x.len() as int),
{
    let whole = x + y;
    let by = x.len() as int;
    match a.start {
        Some(s) => {
            lemma_first_occurrence_shift(x, y, s, k);
        },
        None => {},
    }
    match b.start {
        Some(s) => {
            lemma_first_occurrence_shift(x, y, s, k);
        },
        None => {},
    }
    lemma_start_bounds(a, y, k);
    lemma_start_bounds(b, y, k);
    let a_at = match start_of(a, y, k) {
        Some(i) => i,
        None => y.len() as int,
    };
    let b_at = match start_of(b, y, k) {
        Some(i) => i,
        None => y.len() as int,
    };
    if a_at < b_at {
        lemma_span_at_shift(x, y, a, ParsedInputType::A, a_at);
    } else if b_at < a_at {
        lemma_span_at_shift(x, y, b, ParsedInputType::B, b_at);
    }
}

/// A marked piece in the second part of a text is that of the part alone.
pub proof fn lemma_span_at_shift(
    x: Seq<char>,
    y: Seq<char>,
    marker: MarkerView,
    tp: ParsedInputType,
    at: int,
)
    requires
        0 <= at,
    ensures
        span_at(x + y, marker, tp, x.len() + at) == moved_span(
            span_at(y, marker, tp, at),
            x.len() as int,
        ),
{
    let begin = at + marker.start_string().len();
    match marker.end {
        Some(e) => {
            lemma_first_occurrence_shift(x, y, e, begin);
        },
        None => {},
    }
}

/// The marked pieces of the second part of a text are those of that part
/// alone.
pub proof fn lemma_scanned_shift(x: Seq<char>, y: Seq<char>, a: MarkerView, b: MarkerView, k: int)
    requires
        0 <= k,
    ensures
        scanned(x + y, a, b, x.len() + k) == scanned(y, a, b, k),
    decreases y.len() - k,
{
    lemma_next_span_shift(x, y, a, b, k);
    lemma_start_bounds(a, y, k);
    lemma_start_bounds(b, y, k);
    match next_span(y, a, b, k) {
        Some(span) => {
            if k < span.next && span.next <= y.len() {
                let a_at = match start_of(a, y, k) {
                    Some(i) => i,
                    None => y.len() as int,
                };
                let b_at = match start_of(b, y, k) {
                    Some(i) => i,
                    None => y.len() as int,
                };
                if a_at < b_at {
                    lemma_span_bounds(y, a, ParsedInputType::A, a_at);
                } else {
                    lemma_span_bounds(y, b, ParsedInputType::B, b_at);
                }
                lemma_scanned_shift(x, y, a, b, span.next);
                assert((x + y).subrange(x.len() + span.content_from, x.len() + span.content_to)
                    =~= y.subrange(span.content_from, span.content_to));
            }
        },
        None => {},
    }
}

/// A clean character in front of a text adds no marked piece.
pub proof fn lemma_scanned_skips(c: char, rest: Seq<char>, a: MarkerView, b: MarkerView)
    requires
        clean_char(c, a, b),
        solid(a),
        solid(b),
    ensures
        scanned(seq![c] + rest, a, b, 0) == scanned(rest, a, b, 0),
{
    let text = seq![c] + rest;
    lemma_delimiter_chars(a, b);
    lemma_start_matches_no_clean(c, rest, a, a, b);
    lemma_start_matches_no_clean(c, rest, b, a, b);
    assert(next_span(text, a, b, 0) == next_span(text, a, b, 1));
    lemma_next_span_shift(seq![c], rest, a, b, 0);
    lemma_scanned_shift(seq![c], rest, a, b, 0);
    lemma_start_bounds(a, text, 1);
    lemma_start_bounds(b, text, 1);
    match next_span(text, a, b, 1) {
        Some(span) => {
            let a_at = match start_of(a, text, 1) {
                Some(i) => i,
                None => text.len() as int,
            };
            let b_at = match start_of(b, text, 1) {
                Some(i) => i,
                None => text.len() as int,
            };
            if a_at < b_at {
                lemma_span_bounds(text, a, ParsedInputType::A, a_at);
            } else {
                lemma_span_bounds(text, b, ParsedInputType::B, b_at);
            }
            assert(1 < span.next);
        },
        None => {},
    }
}

/// The start delimiter of a marker does not stand at a clean character, so
/// a search from that character finds what a search behind it finds.
proof fn lemma_start_matches_no_clean(
    c: char,
    rest: Seq<char>,
    marker: MarkerView,
    a: MarkerView,
    b: MarkerView,
)
    requires
        clean_char(c, a, b),
        solid(marker),
        marker == a || marker == b,
    ensures
        start_of(marker, seq![c] + rest, 0) == start_of(marker, seq![c] + rest, 1),
{
    let text = seq![c] + rest;
    lemma_delimiter_chars(a, b);
    match marker.start {
        Some(s) => {
            if occurs_at(text, s, 0) {
                lemma_occurrence_chars(text, s, 0, 0);
                assert(delimiter_chars(a, b).contains(s[0]));
                assert(false);
            }
            if 0 + s.len() > text.len() {
                assert(first_occurrence(text, s, 1) is None);
            }
        },
        None => {},
    }
}

/// A delimiter of one marker does not stand at the front of a run of the
/// other marker.
proof fn lemma_other_start_not_at_run(
    tp: ParsedInputType,
    content: Seq<char>,
    rest: Seq<char>,
    a: MarkerView,
    b: MarkerView,
)
    requires
        acceptable(a, b),
        solid(a),
        solid(b),
        good_segment(Segment::Run(tp, content), a, b),
    ensures
        ({
            let other = if tp == ParsedInputType::A {
                b
            } else {
                a
            };
            let text = rendered(Segment::Run(tp, content), a, b) + rest;
            other.start is Some ==> !occurs_at(text, other.start->0, 0)
        }),
{
    let own = marker_of(tp, a, b);
    let other = if tp == ParsedInputType::A {
        b
    } else {
        a
    };
    let s = own.start_string();
    let text = rendered(Segment::Run(tp, content), a, b) + rest;
    lemma_delimiter_chars(a, b);
    if other.start is Some {
        let s2 = other.start->0;
        if occurs_at(text, s2, 0) {
            if s2.len() > s.len() {
                lemma_occurrence_chars(text, s2, 0, s.len() as int);
                assert(text[s.len() as int] == content[0]);
                assert(delimiter_chars(a, b).contains(s2[s.len() as int]));
                assert(false);
            } else {
                assert(text =~= s + (content + own.end_string() + rest));
                lemma_occurs_in_front(s, content + own.end_string() + rest, s2, 0);
                assert(contains(s, s2));
                assert(overlapping(a, b));
                assert(false);
            }
        }
    }
}

/// A run in front of a text is its first marked piece, and the marked
/// pieces of the text follow it.
pub proof fn lemma_scanned_run(
    tp: ParsedInputType,
    content: Seq<char>,
    rest: Seq<char>,
    a: MarkerView,
    b: MarkerView,
)
    requires
        acceptable(a, b),
        solid(a),
        solid(b),
        good_segment(Segment::Run(tp, content), a, b),
    ensures
        scanned(rendered(Segment::Run(tp, content), a, b) + rest, a, b, 0) == seq![
            Token { text: content, tp },
        ] + scanned(rest, a, b, 0),
{
    let own = marker_of(tp, a, b);
    let other = if tp == ParsedInputType::A {
        b
    } else {
        a
    };
    let s = own.start_string();
    let e = own.end_string();
    let run = rendered(Segment::Run(tp, content), a, b);
    let text = run + rest;
    lemma_delimiter_chars(a, b);
    // the start delimiter of the run stands at the front
    assert(text =~= s + (content + e + rest));
    lemma_occurs_in_front(s, content + e + rest, s, 0);
    assert(occurs_at(s, s, 0)) by {
        assert(s.subrange(0, s.len() as int) =~= s);
    }
    assert(start_of(own, text, 0) == Some(0int));
    // that of the other marker does not
    lemma_other_start_not_at_run(tp, content, rest, a, b);
    lemma_start_bounds(other, text, 0);
    assert(next_span(text, a, b, 0) == span_at(text, own, tp, 0));
    // the end delimiter is found right behind the content
    let tail = content + (e + rest);
    assert(text =~= s + tail);
    lemma_first_occurrence_shift(s, tail, e, 0);
    assert forall|j: int| 0 <= j < content.len() implies !occurs_at(tail, e, j) by {
        if occurs_at(tail, e, j) {
            lemma_occurrence_chars(tail, e, j, j);
            assert(tail[j] == content[j]);
            assert(delimiter_chars(a, b).contains(e[0]));
            assert(false);
        }
    }
    lemma_occurs_shift(content, e + rest, e, 0);
    lemma_occurs_in_front(e, rest, e, 0);
    assert(occurs_at(e, e, 0)) by {
        assert(e.subrange(0, e.len() as int) =~= e);
    }
    assert(occurs_at(tail, e, content.len() as int));
    lemma_first_occurrence_advance(tail, e, 0, content.len() as int);
    assert(first_occurrence(tail, e, 0) == Some(content.len() as int));
    assert(first_occurrence(text, e, s.len() as int) == Some((s.len() + content.len()) as int));
    let next = s.len() + content.len() + e.len();
    assert(span_at(text, own, tp, 0) == Some(
        Span {
            tp,
            content_from: s.len() as int,
            content_to: (s.len() + content.len()) as int,
            next: next as int,
        },
    ));
    assert(text.subrange(s.len() as int, (s.len() + content.len()) as int) =~= content);
    assert(run.len() == next);
    lemma_scanned_shift(run, rest, a, b, 0);
}

/// The marked pieces of the text of well-formed segments are its runs.
pub proof fn lemma_scanned_segments(segments: Seq<Segment>, a: MarkerView, b: MarkerView)
    requires
        acceptable(a, b),
        solid(a),
        solid(b),
        good(segments, a, b),
    ensures
        scanned(rendered_all(segments, a, b), a, b, 0) == run_tokens(segments),
    decreases segments.len(),
{
    if segments.len() == 0 {
        let text = Seq::<char>::empty();
        lemma_start_bounds(a, text, 0);
        lemma_start_bounds(b, text, 0);
        match next_span(text, a, b, 0) {
            Some(span) => {
                let a_at = match start_of(a, text, 0) {
                    Some(i) => i,
                    None => text.len() as int,
                };
                let b_at = match start_of(b, text, 0) {
                    Some(i) => i,
                    None => text.len() as int,
                };
                assert(a_at == 0 && b_at == 0);
            },
            None => {},
        }
    } else {
        let rest = segments.drop_first();
        assert(good(rest, a, b)) by {
            assert forall|i: int| 0 <= i < rest.len() implies good_segment(
                #[trigger] rest[i],
                a,
                b,
            ) by {
                assert(rest[i] == segments[i + 1]);
            }
        }
        lemma_scanned_segments(rest, a, b);
        assert(good_segment(segments[0], a, b));
        match segments[0] {
            Segment::Plain(c) => {
                lemma_scanned_skips(c, rendered_all(rest, a, b), a, b);
            },
            Segment::Run(tp, content) => {
                lemma_scanned_run(tp, content, rendered_all(rest, a, b), a, b);
            },
        }
    }
}

/// All segments of a list as pieces, in order: a run as it is, and a plain
/// character as a piece of its own that stands for `tp`.
pub open spec fn all_tokens(segments: Seq<Segment>, tp: ParsedInputType) -> Seq<Token>
    decreases segments.len(),
{
    if segments.len() == 0 {
        Seq::empty()
    } else {
        match segments[0] {
            Segment::Plain(c) => seq![Token { text: seq![c], tp }] + all_tokens(
                segments.drop_first(),
                tp,
            ),
            Segment::Run(kind, content) => seq![Token { text: content, tp: kind }] + all_tokens(
                segments.drop_first(),
                tp,
            ),
        }
    }
}

/// Whether every run of a list belongs to the marker of `tp`.
pub open spec fn runs_of(segments: Seq<Segment>, tp: ParsedInputType) -> bool {
    forall|i: int|
        0 <= i < segments.len() ==> match #[trigger] segments[i] {
            Segment::Plain(_) => true,
            Segment::Run(kind, _) => kind == tp,
        }
}

/// A place in a text moved forward by `by` positions.
pub open spec fn moved_place(place: Option<(int, int)>, by: int) -> Option<(int, int)> {
    match place {
        Some((at, next)) => Some((at + by, next + by)),
        None => None,
    }
}

/// A piece is located in the second part of a text where it is located in
/// that part alone.
pub proof fn lemma_located_shift(
    x: Seq<char>,
    y: Seq<char>,
    content: Seq<char>,
    start: Seq<char>,
    end: Seq<char>,
    k: int,
)
    requires
        0 <= k,
    ensures
        located(x + y, content, start, end, x.len() + k) == moved_place(
            located(y, content, start, end, k),
            x.len() as int,
        ),
        match located(y, content, start, end, k) {
            Some((at, next)) => k <= at <= next <= y.len(),
            None => true,
        },
{
    lemma_first_occurrence_shift(x, y, start + content + end, k);
    lemma_first_occurrence(y, start + content + end, k);
    let at = y.len() - (start + content).len();
    if 0 <= at {
        lemma_occurs_shift(x, y, start + content, at);
    }
}

/// Every character of a text in two parts as a piece of its own.
proof fn lemma_singles_add(x: Seq<char>, y: Seq<char>, tp: ParsedInputType)
    ensures
        singles(x + y, tp) == singles(x, tp) + singles(y, tp),
{
    assert(singles(x + y, tp) =~= singles(x, tp) + singles(y, tp));
}

/// The pieces of the second part of a text, with the characters between
/// them, are those of that part alone.
pub proof fn lemma_spliced_shift(
    x: Seq<char>,
    y: Seq<char>,
    tokens: Seq<Token>,
    start: Seq<char>,
    end: Seq<char>,
    tp: ParsedInputType,
    k: int,
)
    requires
        0 <= k <= y.len(),
    ensures
        spliced(x + y, tokens, start, end, tp, x.len() + k) == spliced(
            y,
            tokens,
            start,
            end,
            tp,
            k,
        ),
    decreases tokens.len(),
{
    if tokens.len() == 0 {
        assert((x + y).subrange(x.len() + k, (x + y).len() as int) =~= y.subrange(
            k,
            y.len() as int,
        ));
    } else {
        lemma_located_shift(x, y, tokens[0].text, start, end, k);
        match located(y, tokens[0].text, start, end, k) {
            Some((at, next)) => {
                lemma_spliced_shift(x, y, tokens.drop_first(), start, end, tp, next);
                assert((x + y).subrange(x.len() + k, x.len() + at) =~= y.subrange(k, at));
            },
            None => {
                lemma_spliced_shift(x, y, tokens.drop_first(), start, end, tp, k);
            },
        }
    }
}

/// A character that is not the first of the start delimiter, in front of a
/// text whose first piece is located, becomes a piece of its own in front of
/// the pieces of that text.
proof fn lemma_spliced_skips(
    c: char,
    rest: Seq<char>,
    tokens: Seq<Token>,
    start: Seq<char>,
    end: Seq<char>,
    tp: ParsedInputType,
)
    requires
        start.len() > 0,
        start[0] != c,
        tokens.len() > 0 ==> located(rest, tokens[0].text, start, end, 0) is Some,
    ensures
        spliced(seq![c] + rest, tokens, start, end, tp, 0) == seq![Token { text: seq![c], tp }]
            + spliced(rest, tokens, start, end, tp, 0),
        tokens.len() > 0 ==> located(seq![c] + rest, tokens[0].text, start, end, 0) is Some,
{
    let text = seq![c] + rest;
    let single = seq![Token { text: seq![c], tp }];
    assert(singles(seq![c], tp) =~= single);
    if tokens.len() == 0 {
        assert(text.subrange(0, text.len() as int) =~= seq![c] + rest.subrange(
            0,
            rest.len() as int,
        ));
        lemma_singles_add(seq![c], rest.subrange(0, rest.len() as int), tp);
    } else {
        let content = tokens[0].text;
        let needle = start + content + end;
        lemma_located_shift(seq![c], rest, content, start, end, 0);
        if occurs_at(text, needle, 0) {
            lemma_occurrence_chars(text, needle, 0, 0);
            assert(false);
        }
        if occurs_at(text, start + content, 0) {
            lemma_occurrence_chars(text, start + content, 0, 0);
            assert(false);
        }
        if needle.len() > text.len() {
            assert(first_occurrence(text, needle, 1) is None);
        }
        assert(first_occurrence(text, needle, 0) == first_occurrence(text, needle, 1));
        assert(located(text, content, start, end, 0) == located(text, content, start, end, 1));
        let (at, next) = located(rest, content, start, end, 0)->0;
        lemma_spliced_shift(seq![c], rest, tokens.drop_first(), start, end, tp, next);
        assert(text.subrange(0, at + 1) =~= seq![c] + rest.subrange(0, at));
        lemma_singles_add(seq![c], rest.subrange(0, at), tp);
        assert(spliced(text, tokens, start, end, tp, 0) =~= single + spliced(
            rest,
            tokens,
            start,
            end,
            tp,
            0,
        ));
    }
}

/// The pieces of the text of well-formed segments with one marker, with the
/// characters between them, are all its segments, in order.
pub proof fn lemma_spliced_segments(
    segments: Seq<Segment>,
    a: MarkerView,
    b: MarkerView,
    marked: ParsedInputType,
    inferred: ParsedInputType,
)
    requires
        solid(a),
        solid(b),
        good(segments, a, b),
        runs_of(segments, marked),
        marked == ParsedInputType::A || marked == ParsedInputType::B,
        marker_of(marked, a, b).is_full(),
    ensures
        spliced(
            rendered_all(segments, a, b),
            run_tokens(segments),
            marker_of(marked, a, b).start_string(),
            marker_of(marked, a, b).end_string(),
            inferred,
            0,
        ) == all_tokens(segments, inferred),
        run_tokens(segments).len() > 0 ==> located(
            rendered_all(segments, a, b),
            run_tokens(segments)[0].text,
            marker_of(marked, a, b).start_string(),
            marker_of(marked, a, b).end_string(),
            0,
        ) is Some,
    decreases segments.len(),
{
    let own = marker_of(marked, a, b);
    let s = own.start_string();
    let e = own.end_string();
    lemma_delimiter_chars(a, b);
    if segments.len() == 0 {
        assert(singles(Seq::<char>::empty().subrange(0, 0), inferred) =~= Seq::<Token>::empty());
    } else {
        let rest = segments.drop_first();
        assert(good(rest, a, b) && runs_of(rest, marked)) by {
            assert forall|i: int| 0 <= i < rest.len() implies good_segment(
                #[trigger] rest[i],
                a,
                b,
            ) by {
                assert(rest[i] == segments[i + 1]);
            }
            assert forall|i: int| 0 <= i < rest.len() implies match #[trigger] rest[i] {
                Segment::Plain(_) => true,
                Segment::Run(kind, _) => kind == marked,
            } by {
                assert(rest[i] == segments[i + 1]);
            }
        }
        lemma_spliced_segments(rest, a, b, marked, inferred);
        assert(good_segment(segments[0], a, b));
        let tail = rendered_all(rest, a, b);
        match segments[0] {
            Segment::Plain(c) => {
                assert(delimiter_chars(a, b).contains(s[0]));
                lemma_spliced_skips(c, tail, run_tokens(rest), s, e, inferred);
            },
            Segment::Run(kind, content) => {
                assert(kind == marked);
                let run = s + content + e;
                let text = run + tail;
                let tokens = run_tokens(segments);
                assert(tokens.drop_first() =~= run_tokens(rest));
                lemma_occurs_in_front(run, tail, run, 0);
                assert(occurs_at(run, run, 0)) by {
                    assert(run.subrange(0, run.len() as int) =~= run);
                }
                assert(first_occurrence(text, run, 0) == Some(0int));
                assert(located(text, content, s, e, 0) == Some((0int, run.len() as int)));
                lemma_spliced_shift(run, tail, run_tokens(rest), s, e, inferred, 0);
                assert(singles(text.subrange(0, 0), inferred) =~= Seq::<Token>::empty());
                assert(spliced(text, tokens, s, e, inferred, 0) =~= seq![tokens[0]] + spliced(
                    tail,
                    run_tokens(rest),
                    s,
                    e,
                    inferred,
                    0,
                ));
            },
        }
    }
}

/// The seam of a marker: its end delimiter with its start delimiter behind
/// it, as it stands between two neighbouring runs of the marker.
pub open spec fn seam(marker: MarkerView) -> Seq<char> {
    marker.end_string() + marker.start_string()
}

/// A list of segments in which neighbouring runs of the marker of `tp` are
/// one run.
pub open spec fn merged(segments: Seq<Segment>, tp: ParsedInputType) -> Seq<Segment>
    decreases segments.len(),
{
    if segments.len() < 2 {
        segments
    } else {
        match (segments[0], segments[1]) {
            (Segment::Run(first, front), Segment::Run(second, back)) => if first == tp && second
                == tp {
                merged(seq![Segment::Run(tp, front + back)] + segments.skip(2), tp)
            } else {
                seq![segments[0]] + merged(segments.drop_first(), tp)
            },
            _ => seq![segments[0]] + merged(segments.drop_first(), tp),
        }
    }
}

/// The text of a list of segments with one more segment in front.
proof fn lemma_rendered_cons(segment: Segment, rest: Seq<Segment>, a: MarkerView, b: MarkerView)
    ensures
        rendered_all(seq![segment] + rest, a, b) == rendered(segment, a, b) + rendered_all(
            rest,
            a,
            b,
        ),
{
    assert((seq![segment] + rest).drop_first() =~= rest);
}

/// A pattern that stands in a text within its middle part stands in that
/// part alone.
proof fn lemma_occurs_inside(
    pre: Seq<char>,
    mid: Seq<char>,
    post: Seq<char>,
    pattern: Seq<char>,
    j: int,
)
    requires
        0 <= j,
        j + pattern.len() <= mid.len(),
        occurs_at(pre + mid + post, pattern, pre.len() + j),
    ensures
        occurs_at(mid, pattern, j),
{
    assert((pre + mid + post).subrange(pre.len() + j, pre.len() + j + pattern.len())
        =~= mid.subrange(j, j + pattern.len()));
}

/// The start delimiter that opens a text: that of the marker of `tp`, or
/// nothing.
pub open spec fn opening(next: Option<ParsedInputType>, a: MarkerView, b: MarkerView) -> Seq<char> {
    match next {
        Some(tp) => marker_of(tp, a, b).start_string(),
        None => Seq::empty(),
    }
}

/// The seam of a marker does not stand in a run, nor in its end delimiter
/// with the start delimiter of a following run, unless both runs belong to
/// that marker.
proof fn lemma_seam_absent(
    tp: ParsedInputType,
    kind: ParsedInputType,
    content: Seq<char>,
    next: Option<ParsedInputType>,
    after: Seq<char>,
    a: MarkerView,
    b: MarkerView,
    j: int,
)
    requires
        acceptable(a, b),
        solid(a),
        solid(b),
        tp == ParsedInputType::A || tp == ParsedInputType::B,
        marker_of(tp, a, b).is_full(),
        good_segment(Segment::Run(kind, content), a, b),
        match next {
            Some(k) => (k == ParsedInputType::A || k == ParsedInputType::B) && marker_of(
                k,
                a,
                b,
            ).is_full() && after.len() > 0,
            None => true,
        },
        after.len() > 0 ==> clean_char(after[0], a, b),
        !(kind == tp && next == Some(tp)),
        0 <= j < rendered(Segment::Run(kind, content), a, b).len(),
    ensures
        !occurs_at(
            rendered(Segment::Run(kind, content), a, b) + opening(next, a, b) + after,
            seam(marker_of(tp, a, b)),
            j,
        ),
{
    let own = marker_of(kind, a, b);
    let s = own.start_string();
    let e = own.end_string();
    let open = opening(next, a, b);
    let pattern = seam(marker_of(tp, a, b));
    let pe = marker_of(tp, a, b).end_string();
    let ps = marker_of(tp, a, b).start_string();
    let run = rendered(Segment::Run(kind, content), a, b);
    let text = run + open + after;
    let n1 = s.len() as int;
    let n2 = n1 + content.len();
    let n3 = n2 + e.len();
    let n4 = n3 + open.len();
    lemma_delimiter_chars(a, b);
    assert(dirty(pattern, a, b)) by {
        assert forall|k: int| 0 <= k < pattern.len() implies delimiter_chars(a, b).contains(
            #[trigger] pattern[k],
        ) by {
            if k < pe.len() {
                assert(pattern[k] == pe[k]);
            } else {
                assert(pattern[k] == ps[k - pe.len()]);
            }
        }
    }
    if occurs_at(text, pattern, j) {
        lemma_occurrence_parts(text, pe, ps, j);
        if j < n1 {
            if j + pattern.len() > n1 {
                lemma_covers_no_clean(text, pattern, j, n1, a, b);
                assert(text[n1] == content[0]);
                assert(false);
            } else {
                assert(text =~= s + (content + e + open + after));
                lemma_occurs_in_front(s, content + e + open + after, pe, j);
                assert(contains(s, pe));
                if kind != tp {
                    assert(overlapping(a, b));
                }
                assert(false);
            }
        } else if j < n2 {
            lemma_covers_no_clean(text, pattern, j, j, a, b);
            assert(text[j] == content[j - n1]);
            assert(false);
        } else {
            if after.len() > 0 && j + pattern.len() > n4 {
                lemma_covers_no_clean(text, pattern, j, n4, a, b);
                assert(text[n4] == after[0]);
                assert(false);
            }
            let block = e + open;
            let i = j - n2;
            assert(text =~= (s + content) + block + after);
            lemma_occurs_inside(s + content, block, after, pattern, i);
            lemma_occurrence_parts(block, pe, ps, i);
            if i + pe.len() <= e.len() {
                lemma_occurs_in_front(e, open, pe, i);
                assert(contains(e, pe));
                if kind != tp {
                    assert(overlapping(a, b));
                    assert(false);
                }
                assert(i == 0);
                lemma_occurs_shift(e, open, ps, 0);
                assert(occurs_at(open, ps, 0));
                assert(next is Some);
                assert(contains(open, ps));
                assert(next->0 != tp);
                assert(overlapping(a, b));
                assert(false);
            } else {
                let d = i + pe.len() - e.len();
                lemma_occurs_shift(e, open, ps, d);
                assert(occurs_at(open, ps, d));
                assert(next is Some);
                assert(contains(open, ps));
                if next->0 != tp {
                    assert(overlapping(a, b));
                }
                assert(false);
            }
        }
    }
}

/// The kind of the run that a list of segments starts with.
pub open spec fn first_run(segments: Seq<Segment>) -> Option<ParsedInputType> {
    if segments.len() > 0 {
        match segments[0] {
            Segment::Run(tp, _) => Some(tp),
            Segment::Plain(_) => None,
        }
    } else {
        None
    }
}

/// The text of well-formed segments is the start delimiter of its first run
/// and then a text that is empty or starts with a clean character.
proof fn lemma_rendered_opening(segments: Seq<Segment>, a: MarkerView, b: MarkerView)
    requires
        good(segments, a, b),
    ensures
        exists|after: Seq<char>|
            #![auto]
            rendered_all(segments, a, b) == opening(first_run(segments), a, b) + after && (
            after.len() > 0 ==> clean_char(after[0], a, b)) && (first_run(segments) is Some
                ==> after.len() > 0),
{
    if segments.len() == 0 {
        let after = Seq::<char>::empty();
        assert(rendered_all(segments, a, b) =~= opening(first_run(segments), a, b) + after);
    } else {
        assert(good_segment(segments[0], a, b));
        let rest = rendered_all(segments.drop_first(), a, b);
        match segments[0] {
            Segment::Plain(c) => {
                let after = seq![c] + rest;
                assert(rendered_all(segments, a, b) =~= opening(first_run(segments), a, b)
                    + after);
            },
            Segment::Run(tp, content) => {
                let after = content + marker_of(tp, a, b).end_string() + rest;
                assert(rendered_all(segments, a, b) =~= opening(first_run(segments), a, b)
                    + after);
                assert(after[0] == content[0]);
            },
        }
    }
}

/// The characters of the seam of a defined marker are delimiter characters,
/// and there are at least two of them.
proof fn lemma_seam_dirty(tp: ParsedInputType, a: MarkerView, b: MarkerView)
    requires
        solid(a),
        solid(b),
        marker_of(tp, a, b).is_full(),
    ensures
        dirty(seam(marker_of(tp, a, b)), a, b),
        seam(marker_of(tp, a, b)).len() > marker_of(tp, a, b).start_string().len(),
        seam(marker_of(tp, a, b)).len() > 0,
{
    let pattern = seam(marker_of(tp, a, b));
    let pe = marker_of(tp, a, b).end_string();
    let ps = marker_of(tp, a, b).start_string();
    lemma_delimiter_chars(a, b);
    assert forall|k: int| 0 <= k < pattern.len() implies delimiter_chars(a, b).contains(
        #[trigger] pattern[k],
    ) by {
        if k < pe.len() {
            assert(pattern[k] == pe[k]);
        } else {
            assert(pattern[k] == ps[k - pe.len()]);
        }
    }
}

/// A pattern of delimiter characters that is longer than a start delimiter
/// is not met in that delimiter with clean characters behind it.
proof fn lemma_without_run_front(
    start: Seq<char>,
    content: Seq<char>,
    rest: Seq<char>,
    pattern: Seq<char>,
    a: MarkerView,
    b: MarkerView,
)
    requires
        dirty(pattern, a, b),
        pattern.len() > start.len(),
        content.len() > 0,
        clean(content, a, b),
    ensures
        without(start + content + rest, pattern, 0) == start + content + without(
            rest,
            pattern,
            0,
        ),
{
    let text = start + content + rest;
    let front = start + content;
    assert forall|j: int| 0 <= j < front.len() implies !occurs_at(text, pattern, j) by {
        if occurs_at(text, pattern, j) {
            if j < start.len() {
                lemma_covers_no_clean(text, pattern, j, start.len() as int, a, b);
                assert(text[start.len() as int] == content[0]);
            } else {
                lemma_covers_no_clean(text, pattern, j, j, a, b);
                assert(text[j] == content[j - start.len()]);
            }
            assert(false);
        }
    }
    lemma_without_advance(text, pattern, 0, front.len() as int);
    assert(text.subrange(0, front.len() as int) =~= front);
    lemma_without_shift(front, rest, pattern, 0);
}

/// A pattern in front of a text is removed.
proof fn lemma_without_pattern_front(pattern: Seq<char>, rest: Seq<char>)
    requires
        pattern.len() > 0,
    ensures
        without(pattern + rest, pattern, 0) == without(rest, pattern, 0),
{
    lemma_occurs_in_front(pattern, rest, pattern, 0);
    assert(occurs_at(pattern, pattern, 0)) by {
        assert(pattern.subrange(0, pattern.len() as int) =~= pattern);
    }
    lemma_without_shift(pattern, rest, pattern, 0);
}

/// Two neighbouring runs of a marker lose their seam, as if they were one.
proof fn lemma_without_joined(
    tp: ParsedInputType,
    front: Seq<char>,
    back: Seq<char>,
    last: Seq<char>,
    a: MarkerView,
    b: MarkerView,
)
    requires
        solid(a),
        solid(b),
        good_segment(Segment::Run(tp, front), a, b),
        good_segment(Segment::Run(tp, back), a, b),
    ensures
        without(
            rendered(Segment::Run(tp, front), a, b) + (rendered(Segment::Run(tp, back), a, b)
                + last),
            seam(marker_of(tp, a, b)),
            0,
        ) == without(
            rendered(Segment::Run(tp, front + back), a, b) + last,
            seam(marker_of(tp, a, b)),
            0,
        ),
        good_segment(Segment::Run(tp, front + back), a, b),
{
    let own = marker_of(tp, a, b);
    let s = own.start_string();
    let e = own.end_string();
    let pattern = seam(own);
    let none = Seq::<char>::empty();
    lemma_seam_dirty(tp, a, b);
    let two = rendered(Segment::Run(tp, front), a, b) + (rendered(Segment::Run(tp, back), a, b)
        + last);
    let one = rendered(Segment::Run(tp, front + back), a, b) + last;
    let end = e + last;
    assert(two =~= s + front + (pattern + (back + end)));
    lemma_without_run_front(s, front, pattern + (back + end), pattern, a, b);
    lemma_without_pattern_front(pattern, back + end);
    assert(back + end =~= none + back + end);
    lemma_without_run_front(none, back, end, pattern, a, b);
    assert(one =~= s + (front + back) + end);
    assert(clean(front + back, a, b));
    lemma_without_run_front(s, front + back, end, pattern, a, b);
    assert(s + front + (none + back + without(end, pattern, 0)) =~= s + (front + back)
        + without(end, pattern, 0));
}

/// A run that no run of the same marker follows keeps its end delimiter.
proof fn lemma_without_whole_run(
    tp: ParsedInputType,
    kind: ParsedInputType,
    content: Seq<char>,
    rest: Seq<Segment>,
    a: MarkerView,
    b: MarkerView,
)
    requires
        acceptable(a, b),
        solid(a),
        solid(b),
        tp == ParsedInputType::A || tp == ParsedInputType::B,
        marker_of(tp, a, b).is_full(),
        good_segment(Segment::Run(kind, content), a, b),
        good(rest, a, b),
        !(kind == tp && first_run(rest) == Some(tp)),
    ensures
        without(
            rendered(Segment::Run(kind, content), a, b) + rendered_all(rest, a, b),
            seam(marker_of(tp, a, b)),
            0,
        ) == rendered(Segment::Run(kind, content), a, b) + without(
            rendered_all(rest, a, b),
            seam(marker_of(tp, a, b)),
            0,
        ),
{
    let pattern = seam(marker_of(tp, a, b));
    let run = rendered(Segment::Run(kind, content), a, b);
    let tail = rendered_all(rest, a, b);
    let text = run + tail;
    lemma_rendered_opening(rest, a, b);
    let next = first_run(rest);
    let after = choose|after: Seq<char>|
        #![auto]
        tail == opening(next, a, b) + after && (after.len() > 0 ==> clean_char(after[0], a, b))
            && (next is Some ==> after.len() > 0);
    assert(text =~= run + opening(next, a, b) + after);
    if next is Some {
        assert(good_segment(rest[0], a, b));
    }
    assert forall|j: int| 0 <= j < run.len() implies !occurs_at(text, pattern, j) by {
        lemma_seam_absent(tp, kind, content, next, after, a, b, j);
    }
    lemma_without_advance(text, pattern, 0, run.len() as int);
    assert(text.subrange(0, run.len() as int) =~= run);
    lemma_without_shift(run, tail, pattern, 0);
}

/// The segments behind the first of a well-formed list are well formed.
proof fn lemma_good_rest(segments: Seq<Segment>, a: MarkerView, b: MarkerView)
    requires
        good(segments, a, b),
        segments.len() > 0,
    ensures
        good(segments.drop_first(), a, b),
        good_segment(segments[0], a, b),
{
    let rest = segments.drop_first();
    assert forall|i: int| 0 <= i < rest.len() implies good_segment(#[trigger] rest[i], a, b) by {
        assert(rest[i] == segments[i + 1]);
    }
}

/// A well-formed list with a well-formed segment in front is well formed.
proof fn lemma_good_cons(segment: Segment, rest: Seq<Segment>, a: MarkerView, b: MarkerView)
    requires
        good_segment(segment, a, b),
        good(rest, a, b),
    ensures
        good(seq![segment] + rest, a, b),
{
    let all = seq![segment] + rest;
    assert forall|i: int| 0 <= i < all.len() implies good_segment(#[trigger] all[i], a, b) by {
        if i > 0 {
            assert(all[i] == rest[i - 1]);
        }
    }
}

/// Removing the seams of a marker from the text of well-formed segments
/// gives the text of the segments with neighbouring runs of that marker as
/// one run.
pub proof fn lemma_without_segments(
    segments: Seq<Segment>,
    tp: ParsedInputType,
    a: MarkerView,
    b: MarkerView,
)
    requires
        acceptable(a, b),
        solid(a),
        solid(b),
        tp == ParsedInputType::A || tp == ParsedInputType::B,
        marker_of(tp, a, b).is_full(),
        good(segments, a, b),
    ensures
        without(rendered_all(segments, a, b), seam(marker_of(tp, a, b)), 0) == rendered_all(
            merged(segments, tp),
            a,
            b,
        ),
        good(merged(segments, tp), a, b),
    decreases segments.len(),
{
    let pattern = seam(marker_of(tp, a, b));
    let text = rendered_all(segments, a, b);
    lemma_seam_dirty(tp, a, b);
    if segments.len() == 0 {
    } else {
        let rest = segments.drop_first();
        let tail = rendered_all(rest, a, b);
        lemma_good_rest(segments, a, b);
        if segments.len() >= 2 && segments[0] is Run && segments[0]->Run_0 == tp && first_run(rest)
            == Some(tp) {
            let front = segments[0]->Run_1;
            let back = rest[0]->Run_1;
            let others = segments.skip(2);
            let joined = seq![Segment::Run(tp, front + back)] + others;
            assert(rest.drop_first() =~= others);
            lemma_good_rest(rest, a, b);
            lemma_without_joined(tp, front, back, rendered_all(others, a, b), a, b);
            lemma_good_cons(Segment::Run(tp, front + back), others, a, b);
            lemma_rendered_cons(Segment::Run(tp, front + back), others, a, b);
            lemma_without_segments(joined, tp, a, b);
            assert(merged(segments, tp) == merged(joined, tp));
        } else {
            lemma_without_segments(rest, tp, a, b);
            match segments[0] {
                Segment::Plain(c) => {
                    let none = Seq::<char>::empty();
                    assert(text =~= none + seq![c] + tail);
                    assert(clean(seq![c], a, b));
                    lemma_without_run_front(none, seq![c], tail, pattern, a, b);
                    assert(without(text, pattern, 0) =~= seq![c] + without(tail, pattern, 0));
                },
                Segment::Run(kind, content) => {
                    lemma_without_whole_run(tp, kind, content, rest, a, b);
                },
            }
            if segments.len() < 2 {
                assert(rest =~= Seq::<Segment>::empty());
                assert(tail =~= Seq::<char>::empty());
                assert(without(tail, pattern, 0) =~= Seq::<char>::empty());
                assert(text =~= rendered(segments[0], a, b));
                assert(merged(segments, tp) == segments);
            } else {
                assert(merged(segments, tp) == seq![segments[0]] + merged(rest, tp));
                lemma_rendered_cons(segments[0], merged(rest, tp), a, b);
                lemma_good_cons(segments[0], merged(rest, tp), a, b);
            }
        }
    }
}

/// The segment that is written for character `c` when `k` elements of the
/// encoded secret are taken already: a run of one character where `c` takes a
/// value whose marker is defined, else the plain character.
pub open spec fn char_segment<AB>(
    c: char,
    k: nat,
    symbols: Seq<AB>,
    va: AB,
    vb: AB,
    a: MarkerView,
    b: MarkerView,
) -> Segment {
    if !takes_symbol(c, k, symbols, va, vb) {
        Segment::Plain(c)
    } else if symbols[k as int] == va {
        if a.is_full() {
            Segment::Run(ParsedInputType::A, seq![c])
        } else {
            Segment::Plain(c)
        }
    } else {
        if b.is_full() {
            Segment::Run(ParsedInputType::B, seq![c])
        } else {
            Segment::Plain(c)
        }
    }
}

/// The segments that are written for a public text.
pub open spec fn segments_of<AB>(
    public: Seq<char>,
    symbols: Seq<AB>,
    va: AB,
    vb: AB,
    a: MarkerView,
    b: MarkerView,
) -> Seq<Segment>
    decreases public.len(),
{
    if public.len() == 0 {
        Seq::empty()
    } else {
        segments_of(public.drop_last(), symbols, va, vb, a, b).push(
            char_segment(
                public.last(),
                consumed(public.drop_last(), symbols, va, vb),
                symbols,
                va,
                vb,
                a,
                b,
            ),
        )
    }
}

/// The text of a list of segments with one more segment behind.
proof fn lemma_rendered_push(segments: Seq<Segment>, segment: Segment, a: MarkerView, b: MarkerView)
    ensures
        rendered_all(segments.push(segment), a, b) == rendered_all(segments, a, b) + rendered(
            segment,
            a,
            b,
        ),
    decreases segments.len(),
{
    if segments.len() == 0 {
        let one = segments.push(segment);
        assert(one.drop_first() =~= Seq::<Segment>::empty());
        assert(one[0] == segment);
        assert(rendered_all(one.drop_first(), a, b) =~= Seq::<char>::empty());
        assert(rendered_all(one, a, b) == rendered(one[0], a, b) + rendered_all(
            one.drop_first(),
            a,
            b,
        ));
        assert(rendered_all(segments.push(segment), a, b) =~= rendered(segment, a, b));
        assert(rendered_all(segments, a, b) + rendered(segment, a, b) =~= rendered(
            segment,
            a,
            b,
        ));
    } else {
        assert(segments.push(segment).drop_first() =~= segments.drop_first().push(segment));
        lemma_rendered_push(segments.drop_first(), segment, a, b);
        assert(rendered_all(segments.push(segment), a, b) =~= rendered_all(segments, a, b)
            + rendered(segment, a, b));
    }
}

/// What the steganographer writes before it fuses is the text of the
/// segments of the public text, and those are well formed where the public
/// text is clean.
pub proof fn lemma_wrapped_segments<AB>(
    public: Seq<char>,
    symbols: Seq<AB>,
    va: AB,
    vb: AB,
    a: MarkerView,
    b: MarkerView,
)
    requires
        acceptable(a, b),
        clean(public, a, b),
    ensures
        wrapped(
            public,
            symbols,
            va,
            vb,
            a.start_string(),
            a.end_string(),
            b.start_string(),
            b.end_string(),
        ) == rendered_all(segments_of(public, symbols, va, vb, a, b), a, b),
        good(segments_of(public, symbols, va, vb, a, b), a, b),
    decreases public.len(),
{
    if public.len() == 0 {
    } else {
        let front = public.drop_last();
        let c = public.last();
        assert(clean(front, a, b)) by {
            assert forall|i: int| 0 <= i < front.len() implies clean_char(
                #[trigger] front[i],
                a,
                b,
            ) by {
                assert(front[i] == public[i]);
            }
        }
        lemma_wrapped_segments(front, symbols, va, vb, a, b);
        let k = consumed(front, symbols, va, vb);
        let segment = char_segment(c, k, symbols, va, vb, a, b);
        let before = segments_of(front, symbols, va, vb, a, b);
        lemma_rendered_push(before, segment, a, b);
        let as_a = |c: char| wrapped_char(a.start_string(), a.end_string(), c);
        let as_b = |c: char| wrapped_char(b.start_string(), b.end_string(), c);
        assert(clean_char(c, a, b));
        assert(good_segment(segment, a, b)) by {
            assert(clean(seq![c], a, b));
        }
        assert(rendered(segment, a, b) =~= carried_char(c, k, symbols, va, vb, as_a, as_b));
        let all = before.push(segment);
        assert forall|i: int| 0 <= i < all.len() implies good_segment(#[trigger] all[i], a, b) by {
            if i < before.len() {
                assert(all[i] == before[i]);
            }
        }
    }
}

/// The pieces that a list of segments is read as: its runs and, where a
/// value is inferred for the characters between them, those characters.
pub open spec fn tokens_for(segments: Seq<Segment>, inferred: Option<ParsedInputType>) -> Seq<
    Token,
> {
    match inferred {
        Some(tp) => all_tokens(segments, tp),
        None => run_tokens(segments),
    }
}

/// The substitution values that a segment is read as.
pub open spec fn segment_symbols<AB>(
    segment: Segment,
    va: AB,
    vb: AB,
    inferred: Option<ParsedInputType>,
) -> Seq<AB> {
    match segment {
        Segment::Run(tp, content) => token_symbols(Token { text: content, tp }, va, vb),
        Segment::Plain(c) => match inferred {
            Some(tp) => token_symbols(Token { text: seq![c], tp }, va, vb),
            None => Seq::empty(),
        },
    }
}

/// The substitution values that a list of segments is read as.
pub open spec fn symbols_in<AB>(
    segments: Seq<Segment>,
    va: AB,
    vb: AB,
    inferred: Option<ParsedInputType>,
) -> Seq<AB> {
    segments.flat_map(|segment: Segment| segment_symbols(segment, va, vb, inferred))
}

/// The values of a list of pieces with one more piece in front.
proof fn lemma_symbols_cons<AB>(token: Token, rest: Seq<Token>, va: AB, vb: AB)
    ensures
        symbols_of(seq![token] + rest, va, vb) == token_symbols(token, va, vb) + symbols_of(
            rest,
            va,
            vb,
        ),
{
    let f = |t: Token| token_symbols(t, va, vb);
    assert((seq![token] + rest).map_values(f) =~= seq![f(token)] + rest.map_values(f));
    vstd::seq_lib::lemma_flatten_concat(seq![f(token)], rest.map_values(f));
    seq![f(token)].lemma_flatten_one_element();
}

/// The values of a list of segments with one more segment in front.
proof fn lemma_symbols_in_cons<AB>(
    segment: Segment,
    rest: Seq<Segment>,
    va: AB,
    vb: AB,
    inferred: Option<ParsedInputType>,
)
    ensures
        symbols_in(seq![segment] + rest, va, vb, inferred) == segment_symbols(
            segment,
            va,
            vb,
            inferred,
        ) + symbols_in(rest, va, vb, inferred),
{
    let f = |segment: Segment| segment_symbols(segment, va, vb, inferred);
    assert((seq![segment] + rest).map_values(f) =~= seq![f(segment)] + rest.map_values(f));
    vstd::seq_lib::lemma_flatten_concat(seq![f(segment)], rest.map_values(f));
    seq![f(segment)].lemma_flatten_one_element();
}

/// The values of the pieces of a list of segments are the values of its
/// segments.
proof fn lemma_symbols_of_tokens<AB>(
    segments: Seq<Segment>,
    va: AB,
    vb: AB,
    inferred: Option<ParsedInputType>,
)
    ensures
        symbols_of(tokens_for(segments, inferred), va, vb) == symbols_in(
            segments,
            va,
            vb,
            inferred,
        ),
    decreases segments.len(),
{
    if segments.len() == 0 {
        assert(symbols_of(Seq::<Token>::empty(), va, vb) =~= Seq::<AB>::empty());
        assert(symbols_in(segments, va, vb, inferred) =~= Seq::<AB>::empty());
    } else {
        let rest = segments.drop_first();
        lemma_symbols_of_tokens(rest, va, vb, inferred);
        assert(seq![segments[0]] + rest =~= segments);
        lemma_symbols_in_cons(segments[0], rest, va, vb, inferred);
        match segments[0] {
            Segment::Plain(c) => {
                match inferred {
                    Some(tp) => {
                        lemma_symbols_cons(
                            Token { text: seq![c], tp },
                            tokens_for(rest, inferred),
                            va,
                            vb,
                        );
                    },
                    None => {
                        assert(Seq::<AB>::empty() + symbols_in(rest, va, vb, inferred)
                            =~= symbols_in(rest, va, vb, inferred));
                    },
                }
            },
            Segment::Run(tp, content) => {
                lemma_symbols_cons(
                    Token { text: content, tp },
                    tokens_for(rest, inferred),
                    va,
                    vb,
                );
            },
        }
    }
}

/// The values of a piece in two parts are those of the parts.
proof fn lemma_token_symbols_add<AB>(
    tp: ParsedInputType,
    front: Seq<char>,
    back: Seq<char>,
    va: AB,
    vb: AB,
)
    ensures
        token_symbols(Token { text: front + back, tp }, va, vb) == token_symbols(
            Token { text: front, tp },
            va,
            vb,
        ) + token_symbols(Token { text: back, tp }, va, vb),
{
    Seq::filter_distributes_over_add(front, back, |c: char| alphabetic(c));
    assert(token_symbols(Token { text: front + back, tp }, va, vb) =~= token_symbols(
        Token { text: front, tp },
        va,
        vb,
    ) + token_symbols(Token { text: back, tp }, va, vb));
}

/// Neighbouring runs that become one run are read as the same values.
proof fn lemma_merged_symbols<AB>(
    segments: Seq<Segment>,
    tp: ParsedInputType,
    va: AB,
    vb: AB,
    inferred: Option<ParsedInputType>,
)
    ensures
        symbols_in(merged(segments, tp), va, vb, inferred) == symbols_in(
            segments,
            va,
            vb,
            inferred,
        ),
    decreases segments.len(),
{
    if segments.len() < 2 {
    } else {
        let rest = segments.drop_first();
        assert(seq![segments[0]] + rest =~= segments);
        lemma_symbols_in_cons(segments[0], rest, va, vb, inferred);
        if segments[0] is Run && segments[1] is Run && segments[0]->Run_0 == tp
            && segments[1]->Run_0 == tp {
            let front = segments[0]->Run_1;
            let back = segments[1]->Run_1;
            let others = segments.skip(2);
            let joined = seq![Segment::Run(tp, front + back)] + others;
            lemma_merged_symbols(joined, tp, va, vb, inferred);
            lemma_symbols_in_cons(Segment::Run(tp, front + back), others, va, vb, inferred);
            assert(seq![segments[1]] + others =~= rest);
            lemma_symbols_in_cons(segments[1], others, va, vb, inferred);
            lemma_token_symbols_add(tp, front, back, va, vb);
            assert(symbols_in(joined, va, vb, inferred) =~= symbols_in(
                segments,
                va,
                vb,
                inferred,
            ));
        } else {
            lemma_merged_symbols(rest, tp, va, vb, inferred);
            lemma_symbols_in_cons(segments[0], merged(rest, tp), va, vb, inferred);
        }
    }
}

/// The value whose marker is undefined, if there is one: the characters
/// between the marked pieces stand for it.
pub open spec fn inferred_type(a: MarkerView, b: MarkerView) -> Option<ParsedInputType> {
    if b.is_empty() {
        Some(ParsedInputType::B)
    } else if a.is_empty() {
        Some(ParsedInputType::A)
    } else {
        None
    }
}

/// The alphabetic characters of a text of one character.
proof fn lemma_single_symbols<AB>(c: char, tp: ParsedInputType, va: AB, vb: AB)
    ensures
        token_symbols(Token { text: seq![c], tp }, va, vb) == if !alphabetic(c) {
            Seq::<AB>::empty()
        } else if tp == ParsedInputType::A {
            seq![va]
        } else {
            seq![vb]
        },
{
    let letters = |x: char| alphabetic(x);
    let none = Seq::<char>::empty();
    none.lemma_filter_push(c, letters);
    assert(none.filter(letters) == none) by {
        reveal(Seq::filter);
    }
    assert(none.push(c) =~= seq![c]);
    if alphabetic(c) {
        assert(token_symbols(Token { text: seq![c], tp }, va, vb) =~= if tp
            == ParsedInputType::A {
            seq![va]
        } else {
            seq![vb]
        });
    } else {
        assert(token_symbols(Token { text: seq![c], tp }, va, vb) =~= Seq::<AB>::empty());
    }
}

/// The walk over the public text, read back from its segments: as long as
/// elements of the encoded secret are left, the values of the segments are
/// what was taken of it, and what was taken stays in front afterwards.
proof fn lemma_segment_walk<AB>(
    public: Seq<char>,
    symbols: Seq<AB>,
    va: AB,
    vb: AB,
    a: MarkerView,
    b: MarkerView,
)
    requires
        va != vb,
        acceptable(a, b),
        forall|i: int| 0 <= i < symbols.len() ==> #[trigger] symbols[i] == va || symbols[i] == vb,
    ensures
        ({
            let taken = consumed(public, symbols, va, vb);
            let read = symbols_in(
                segments_of(public, symbols, va, vb, a, b),
                va,
                vb,
                inferred_type(a, b),
            );
            &&& taken <= symbols.len()
            &&& taken <= read.len()
            &&& read.take(taken as int) == symbols.take(taken as int)
            &&& taken < symbols.len() ==> read.len() == taken
            &&& taken == if alphabetic_count(public) <= symbols.len() {
                alphabetic_count(public)
            } else {
                symbols.len()
            }
        }),
    decreases public.len(),
{
    let inferred = inferred_type(a, b);
    let f = |segment: Segment| segment_symbols(segment, va, vb, inferred);
    if public.len() == 0 {
        assert(symbols_in(Seq::<Segment>::empty(), va, vb, inferred) =~= Seq::<AB>::empty());
        assert(Seq::<AB>::empty().take(0) =~= symbols.take(0));
    } else {
        let front = public.drop_last();
        let c = public.last();
        lemma_segment_walk(front, symbols, va, vb, a, b);
        let k = consumed(front, symbols, va, vb);
        let before_segments = segments_of(front, symbols, va, vb, a, b);
        let segment = char_segment(c, k, symbols, va, vb, a, b);
        before_segments.lemma_flat_map_push(f, segment);
        let before = symbols_in(before_segments, va, vb, inferred);
        let read = symbols_in(before_segments.push(segment), va, vb, inferred);
        assert(read == before + segment_symbols(segment, va, vb, inferred));
        lemma_single_symbols(c, ParsedInputType::A, va, vb);
        lemma_single_symbols(c, ParsedInputType::B, va, vb);
        if takes_symbol(c, k, symbols, va, vb) {
            assert(segment_symbols(segment, va, vb, inferred) == seq![symbols[k as int]]);
            assert(read =~= symbols.take(k as int).push(symbols[k as int])) by {
                assert(before =~= before.take(k as int));
            }
            assert(read.take(k as int + 1) =~= symbols.take(k as int + 1));
        } else {
            assert(segment == Segment::Plain(c));
            assert(read.take(k as int) =~= before.take(k as int));
            if alphabetic(c) {
                assert(k == symbols.len());
            } else {
                assert(read =~= before);
            }
        }
    }
}

/// With an empty pattern nothing is removed.
proof fn lemma_without_nothing(text: Seq<char>)
    ensures
        without(text, Seq::empty(), 0) == text,
{
    assert(without(text, Seq::empty(), 0) =~= text);
}

/// What the marker steganographer writes is the text of well-formed
/// segments, which are read as the same values as the segments of the public
/// text.
proof fn lemma_fused_segments<AB>(
    public: Seq<char>,
    symbols: Seq<AB>,
    va: AB,
    vb: AB,
    a: MarkerView,
    b: MarkerView,
) -> (segments: Seq<Segment>)
    requires
        acceptable(a, b),
        solid(a),
        solid(b),
        clean(public, a, b),
    ensures
        fused(
            wrapped(
                public,
                symbols,
                va,
                vb,
                a.start_string(),
                a.end_string(),
                b.start_string(),
                b.end_string(),
            ),
            a,
            b,
        ) == rendered_all(segments, a, b),
        good(segments, a, b),
        symbols_in(segments, va, vb, inferred_type(a, b)) == symbols_in(
            segments_of(public, symbols, va, vb, a, b),
            va,
            vb,
            inferred_type(a, b),
        ),
{
    let inferred = inferred_type(a, b);
    let first = segments_of(public, symbols, va, vb, a, b);
    lemma_wrapped_segments(public, symbols, va, vb, a, b);
    let second = if a.is_full() {
        merged(first, ParsedInputType::A)
    } else {
        first
    };
    if a.is_full() {
        lemma_without_segments(first, ParsedInputType::A, a, b);
        lemma_merged_symbols(first, ParsedInputType::A, va, vb, inferred);
    } else {
        assert(seam(a) =~= Seq::<char>::empty());
        lemma_without_nothing(rendered_all(first, a, b));
    }
    assert(without(rendered_all(first, a, b), a.end_string() + a.start_string(), 0)
        == rendered_all(second, a, b));
    let third = if b.is_full() {
        merged(second, ParsedInputType::B)
    } else {
        second
    };
    if b.is_full() {
        lemma_without_segments(second, ParsedInputType::B, a, b);
        lemma_merged_symbols(second, ParsedInputType::B, va, vb, inferred);
    } else {
        assert(seam(b) =~= Seq::<char>::empty());
        lemma_without_nothing(rendered_all(second, a, b));
    }
    third
}

/// Reading the text of well-formed segments gives the values of the
/// segments.
proof fn lemma_revealed_segments<AB>(
    segments: Seq<Segment>,
    va: AB,
    vb: AB,
    a: MarkerView,
    b: MarkerView,
)
    requires
        acceptable(a, b),
        solid(a),
        solid(b),
        good(segments, a, b),
    ensures
        symbols_of(revealed_tokens(rendered_all(segments, a, b), a, b), va, vb) == symbols_in(
            segments,
            va,
            vb,
            inferred_type(a, b),
        ),
{
    let text = rendered_all(segments, a, b);
    let inferred = inferred_type(a, b);
    lemma_scanned_segments(segments, a, b);
    lemma_symbols_of_tokens(segments, va, vb, inferred);
    if b.is_empty() {
        assert(runs_of(segments, ParsedInputType::A)) by {
            assert forall|i: int| 0 <= i < segments.len() implies match #[trigger] segments[i] {
                Segment::Plain(_) => true,
                Segment::Run(kind, _) => kind == ParsedInputType::A,
            } by {
                assert(good_segment(segments[i], a, b));
            }
        }
        lemma_spliced_segments(segments, a, b, ParsedInputType::A, ParsedInputType::B);
    } else if a.is_empty() {
        assert(runs_of(segments, ParsedInputType::B)) by {
            assert forall|i: int| 0 <= i < segments.len() implies match #[trigger] segments[i] {
                Segment::Plain(_) => true,
                Segment::Run(kind, _) => kind == ParsedInputType::B,
            } by {
                assert(good_segment(segments[i], a, b));
            }
        }
        lemma_spliced_segments(segments, a, b, ParsedInputType::B, ParsedInputType::A);
    }
}

/// What the marker steganographer writes carries the encoded secret: where
/// the markers have delimiters that are not empty and whose characters the
/// public text does not hold, the two substitution values differ, the encoded
/// secret holds nothing else, and the public text has an alphabetic character
/// for each of its elements, the values read back from the disguised text
/// start with the encoded secret.
pub proof fn law_marker_carries<C: BaconCodec<CONTENT = char>>(
    codec: &C,
    secret: Seq<char>,
    public: Seq<char>,
    a: MarkerView,
    b: MarkerView,
)
    requires
        acceptable(a, b),
        solid(a),
        solid(b),
        clean(public, a, b),
        codec.spec_a() != codec.spec_b(),
        forall|i: int|
            0 <= i < encoded(codec, secret).len() ==> #[trigger] encoded(codec, secret)[i]
                == codec.spec_a() || encoded(codec, secret)[i] == codec.spec_b(),
        alphabetic_count(public) >= encoded(codec, secret).len(),
    ensures
        ({
            let disguised = fused(
                wrapped(
                    public,
                    encoded(codec, secret),
                    codec.spec_a(),
                    codec.spec_b(),
                    a.start_string(),
                    a.end_string(),
                    b.start_string(),
                    b.end_string(),
                ),
                a,
                b,
            );
            let read = symbols_of(
                revealed_tokens(disguised, a, b),
                codec.spec_a(),
                codec.spec_b(),
            );
            &&& read.len() >= encoded(codec, secret).len()
            &&& read.take(encoded(codec, secret).len() as int) == encoded(codec, secret)
        }),
{
    let symbols = encoded(codec, secret);
    let va = codec.spec_a();
    let vb = codec.spec_b();
    let segments = lemma_fused_segments(public, symbols, va, vb, a, b);
    lemma_revealed_segments(segments, va, vb, a, b);
    lemma_segment_walk(public, symbols, va, vb, a, b);
    assert(symbols.take(symbols.len() as int) =~= symbols);
}

/// What `disguise` of a marker steganographer writes for a secret and a
/// public text.
pub open spec fn disguised<C: BaconCodec<CONTENT = char>>(
    s: &MarkdownSteganographer,
    codec: &C,
    secret: Seq<char>,
    public: Seq<char>,
) -> Seq<char> {
    fused(
        wrapped(
            public,
            encoded(codec, secret),
            codec.spec_a(),
            codec.spec_b(),
            s.a_marker().start_string(),
            s.a_marker().end_string(),
            s.b_marker().start_string(),
            s.b_marker().end_string(),
        ),
        s.a_marker(),
        s.b_marker(),
    )
}

/// What `reveal_secret` of a marker steganographer reads from a text.
pub open spec fn revealed<C: BaconCodec<CONTENT = char>>(
    s: &MarkdownSteganographer,
    codec: &C,
    input: Seq<char>,
) -> Seq<char> {
    decoded(
        codec,
        symbols_of(
            revealed_tokens(input, s.a_marker(), s.b_marker()),
            codec.spec_a(),
            codec.spec_b(),
        ),
    )
}

/// Whether the round trip of a marker steganographer is sure: its markers
/// have delimiters that are not empty, no character of a delimiter stands in
/// the public text, and the public text has five alphabetic characters for
/// each alphabetic character of the secret.
pub open spec fn fits(s: &MarkdownSteganographer, secret: Seq<char>, public: Seq<char>) -> bool {
    &&& acceptable(s.a_marker(), s.b_marker())
    &&& solid(s.a_marker())
    &&& solid(s.b_marker())
    &&& clean(public, s.a_marker(), s.b_marker())
    &&& alphabetic_count(public) >= alphabetic_count(secret) * 5
}

/// The round trip of the marker steganographer, for either version of the
/// cipher.
proof fn lemma_marker_round_trip<C: BaconCodec<CONTENT = char>>(
    s: &MarkdownSteganographer,
    codec: &C,
    version: Version,
    secret: Seq<char>,
    public: Seq<char>,
)
    requires
        codec.spec_a() != codec.spec_b(),
        follows(codec, version),
        fits(s, secret, public),
    ensures
        revealed(s, codec, disguised(s, codec, secret, public)).len() >= letters_of(
            secret,
        ).len(),
        revealed(s, codec, disguised(s, codec, secret, public)).take(
            letters_of(secret).len() as int,
        ) == decoded(codec, encoded(codec, letters_of(secret))),
{
    let symbols = encoded(codec, secret);
    let letters = letters_of(secret);
    lemma_encoded_shape(codec, version, secret);
    assert(symbols.len() <= alphabetic_count(public)) by (nonlinear_arith)
        requires
            symbols.len() == letters.len() * 5,
            letters.len() <= alphabetic_count(secret),
            alphabetic_count(public) >= alphabetic_count(secret) * 5,
    ;
    law_marker_carries(codec, secret, public, s.a_marker(), s.b_marker());
    let read = symbols_of(
        revealed_tokens(disguised(s, codec, secret, public), s.a_marker(), s.b_marker()),
        codec.spec_a(),
        codec.spec_b(),
    );
    lemma_read_back(codec, version, secret, read);
}

/// Round trip of the marker steganographer with a codec of the first
/// version, whether both markers are defined, only that of `A`, or only that
/// of `B`: where the markers have delimiters that are not empty and whose
/// characters the public text does not hold, the public text has five
/// alphabetic characters for each alphabetic character of the secret, and the
/// two substitution values differ, what `reveal_secret` reads from the
/// disguised text starts with the Latin letters of the secret, every letter as
/// the first capital letter that shares its number: in capital letters, where
/// the secret has neither `J` nor `V`.
pub proof fn law_marker_round_trip<T: Symbol>(
    s: &MarkdownSteganographer,
    codec: &CharCodec<T>,
    secret: Seq<char>,
    public: Seq<char>,
)
    requires
        codec.spec_a() != codec.spec_b(),
        fits(s, secret, public),
    ensures
        ({
            let read = revealed(s, codec, disguised(s, codec, secret, public));
            let letters = letters_of(secret);
            &&& read.len() >= letters.len()
            &&& read.take(letters.len() as int) == canonical(Version::First, letters)
            &&& !has_shared_letter(Version::First, letters) ==> read.take(letters.len() as int)
                == upper_case(letters)
        }),
{
    lemma_marker_round_trip(s, codec, Version::First, secret, public);
    lemma_encoded_shape(codec, Version::First, secret);
    law_round_trip(codec, letters_of(secret));
}

/// Round trip of the marker steganographer with a codec of the second
/// version: under the same conditions, what `reveal_secret` reads from the
/// disguised text starts with the Latin letters of the secret in capital
/// letters.
pub proof fn law_marker_round_trip_v2<T: Symbol>(
    s: &MarkdownSteganographer,
    codec: &CharCodecV2<T>,
    secret: Seq<char>,
    public: Seq<char>,
)
    requires
        codec.spec_a() != codec.spec_b(),
        fits(s, secret, public),
    ensures
        ({
            let read = revealed(s, codec, disguised(s, codec, secret, public));
            let letters = letters_of(secret);
            &&& read.len() >= letters.len()
            &&& read.take(letters.len() as int) == upper_case(letters)
        }),
{
    lemma_marker_round_trip(s, codec, Version::Second, secret, public);
    lemma_encoded_shape(codec, Version::Second, secret);
    law_round_trip_v2(codec, letters_of(secret));
}

} // verus!
