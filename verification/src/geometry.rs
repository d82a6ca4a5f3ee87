//! Where every slot came from, and how a caret moves between the source and the layout.
//!
//! The map is built by walking the layout's slots over the source it was laid out from: every
//! slot's text is its source text, every column boundary is one source line break, and the single
//! exception is the hard hyphen the layout adds when it splits a long word with no hyphen of its
//! own. A layout that does not line up with the text is refused rather than guessed at.

use crate::layout::{
    all_hyphens_latin, break_pos, cr_alone, hyphens_latin, last_cluster, layout_text,
    lemma_model_lines_up, lone_crs, model_of, rejoin, shown, shown_columns, shown_slots,
    slots_source, slots_view, starts_plainly, Layout, LayoutConfig, Slot, SlotKind, SlotModel,
    INSERTED_HYPHEN,
};
use crate::text::{
    byte_count, byte_len, chars_of, concat_all, decimal, grapheme_clusters, graphemes,
    is_line_break_char, is_line_break_cluster, lemma_byte_len_append, line_breaks_apart, lemma_byte_len_prefix, partitions, push_decimal,
    string_views, word_clusters_dash_free,
};
use std::ops::Range;
use vstd::prelude::*;
use vstd::string::StrSliceExecFns;
use vstd::string::StringExecFns;

verus! {

/// The source of one slot.
#[derive(Debug, PartialEq, Eq)]
pub struct SlotSource {
    /// The slot's column, in source order.
    pub column: usize,
    /// The slot's position within its column.
    pub index: usize,
    /// The bytes of the source this slot shows.
    pub range: Range<usize>,
    /// The slot ends in a hyphen the layout inserted to split a long word. That character has no
    /// source bytes and no caret position.
    pub inserted_hyphen: bool,
    /// The source offset of every grapheme boundary in the slot, from `range.start` to
    /// `range.end` inclusive.
    pub boundaries: Vec<usize>,
}

/// What a slot source says, as plain values.
pub struct SlotSourceView {
    pub column: usize,
    pub index: usize,
    pub start: usize,
    pub end: usize,
    pub inserted_hyphen: bool,
    pub boundaries: Seq<usize>,
}

impl View for SlotSource {
    type V = SlotSourceView;

    open spec fn view(&self) -> SlotSourceView {
        SlotSourceView {
            column: self.column,
            index: self.index,
            start: self.range.start,
            end: self.range.end,
            inserted_hyphen: self.inserted_hyphen,
            boundaries: self.boundaries@,
        }
    }
}

impl SlotSource {
    /// The source offset of every grapheme boundary in the slot.
    pub open spec fn boundary_offsets(&self) -> Seq<usize> {
        self@.boundaries
    }

    /// The slot's column.
    pub fn column(&self) -> (c: usize)
        ensures
            c == self@.column,
    {
        self.column
    }

    /// The first source byte the slot shows.
    pub fn start(&self) -> (b: usize)
        ensures
            b == self@.start,
    {
        self.range.start
    }

    /// The end of the source bytes the slot shows.
    pub fn end(&self) -> (b: usize)
        ensures
            b == self@.end,
    {
        self.range.end
    }

    /// Whether the slot ends in a hyphen the layout inserted.
    pub fn ends_in_inserted_hyphen(&self) -> (h: bool)
        ensures
            h == self@.inserted_hyphen,
    {
        self.inserted_hyphen
    }

    /// How many source graphemes the slot holds; a caret can stand between any two of them.
    pub fn graphemes(&self) -> (n: usize)
        requires
            self.boundary_offsets().len() >= 1,
        ensures
            n == self.boundary_offsets().len() - 1,
    {
        self.boundaries.len() - 1
    }
}

impl Clone for SlotSource {
    fn clone(&self) -> (copy: Self)
        ensures
            copy@ == self@,
    {
        SlotSource {
            column: self.column,
            index: self.index,
            range: self.range.start..self.range.end,
            inserted_hyphen: self.inserted_hyphen,
            boundaries: self.boundaries.clone(),
        }
    }
}

/// A caret: before grapheme `grapheme` of slot `index` in `column`.
///
/// `grapheme` may equal the slot's grapheme count only for the last slot of a column, meaning the
/// end of that column. Everywhere else the position after one slot is written as the start of the
/// next, so each source offset has one caret. A column with no slots has the single caret
/// `index: 0, grapheme: 0`.
#[derive(Clone, Copy, Debug, PartialEq, Eq, Hash)]
pub struct Caret {
    pub column: usize,
    pub index: usize,
    pub grapheme: usize,
}

/// A layout that is not the layout of the text it was paired with.
#[derive(Clone, Debug, PartialEq, Eq)]
pub struct SourceMapError {
    pub column: usize,
    /// The slot that did not match, or `None` where a line break or the end of the text was
    /// expected.
    pub index: Option<usize>,
    pub offset: usize,
}

// ---------------------------------------------------------------------------------------------
// The walk of a layout over its source, in characters.
// ---------------------------------------------------------------------------------------------

pub open spec fn starts_with(s: Seq<char>, prefix: Seq<char>) -> bool {
    prefix.len() <= s.len() && s.take(prefix.len() as int) == prefix
}

/// How a slot lines up with the source at character `pos`: the number of source characters it
/// shows, and whether it ends in an inserted hyphen that has none.
pub open spec fn slot_match(input: Seq<char>, pos: int, slot: (SlotKind, Seq<char>)) -> Option<
    (nat, bool),
> {
    let rest = input.skip(pos);
    if starts_with(rest, slot.1) {
        Some((slot.1.len(), false))
    } else if slot.0 == SlotKind::LatinWord && slot.1.len() > 0 && slot.1.last() == INSERTED_HYPHEN
        && starts_with(rest, slot.1.drop_last()) {
        Some(((slot.1.len() - 1) as nat, true))
    } else {
        None
    }
}

/// The length of the line break at character `pos`: CR LF, or a lone CR or LF. UAX #29 keeps CR
/// LF together and sets every other CR or LF apart, so this is the first grapheme cluster there
/// whenever that cluster is a line break.
pub open spec fn break_len(input: Seq<char>, pos: int) -> Option<nat> {
    if 0 <= pos && pos + 1 < input.len() && input[pos] == '\r' && input[pos + 1] == '\n' {
        Some(2)
    } else if 0 <= pos < input.len() && is_line_break_char(input[pos]) {
        Some(1)
    } else {
        None
    }
}

proof fn lemma_break_len_skip(input: Seq<char>, pos: int)
    requires
        0 <= pos <= input.len(),
    ensures
        break_len(input.skip(pos), 0) == break_len(input, pos),
{
}

/// What the first grapheme cluster of a text says about a line break there.
proof fn lemma_first_cluster_break(text: Seq<char>, cs: Seq<Seq<char>>)
    requires
        partitions(cs, text),
        line_breaks_apart(cs),
    ensures
        (cs.len() > 0 && is_line_break_cluster(cs[0])) <==> break_len(text, 0) is Some,
        break_len(text, 0) matches Some(n) ==> cs[0].len() == n,
{
    if cs.len() == 0 {
        assert(concat_all(cs) =~= Seq::<char>::empty());
    } else {
        crate::layout::lemma_concat_all_split(cs, 1);
        crate::layout::lemma_concat_all_step(cs, 0);
        assert(cs.subrange(0, 0) =~= Seq::<Seq<char>>::empty());
        assert(concat_all(Seq::<Seq<char>>::empty()) == Seq::<char>::empty());
        assert(concat_all(cs.subrange(0, 1)) =~= cs[0]);
        let rest = concat_all(cs.subrange(1, cs.len() as int));
        assert(text =~= cs[0] + rest);
        assert(cs[0].len() > 0);
        assert(text[0] == cs[0][0]);
        if is_line_break_char(cs[0][0]) {
            assert(is_line_break_cluster(cs[0]));
            if cs[0] == seq!['\r'] && text.len() > 1 && text[1] == '\n' {
                assert(cs.len() > 1) by {
                    if cs.len() == 1 {
                        assert(cs.subrange(1, 1) =~= Seq::<Seq<char>>::empty());
                        assert(rest =~= Seq::<char>::empty());
                    }
                }
                let tail = cs.subrange(1, cs.len() as int);
                crate::layout::lemma_concat_all_split(tail, 1);
                crate::layout::lemma_concat_all_step(tail, 0);
                assert(tail.subrange(0, 0) =~= Seq::<Seq<char>>::empty());
                assert(concat_all(tail.subrange(0, 1)) =~= tail[0]);
                assert(tail[0] == cs[1]);
                assert(cs[1].len() > 0);
                assert(rest[0] == cs[1][0]);
                assert(text[1] == rest[0]);
                assert(cs[1][0] != '\n');
            }
            if cs[0] == seq!['\r', '\n'] {
                assert(text[1] == cs[0][1]);
            }
        } else {
            assert(!is_line_break_cluster(cs[0]));
        }
    }
}

/// Where one slot lies in the source, in characters.
pub struct SlotSpan {
    pub column: nat,
    pub index: nat,
    pub start: nat,
    pub len: nat,
    pub inserted: bool,
}

pub open spec fn spans_end(pos: nat, spans: Seq<SlotSpan>) -> nat {
    if spans.len() == 0 {
        pos
    } else {
        spans.last().start + spans.last().len
    }
}

/// The spans of a column's slots from character `pos` on, or the index of the first slot that
/// does not line up and where.
pub open spec fn walk_column(input: Seq<char>, pos: nat, col: nat, slots: Seq<(SlotKind, Seq<char>)>) -> Result<
    Seq<SlotSpan>,
    (nat, nat),
>
    decreases slots.len(),
{
    if slots.len() == 0 {
        Ok(Seq::empty())
    } else {
        match walk_column(input, pos, col, slots.drop_last()) {
            Err(e) => Err(e),
            Ok(spans) => {
                let p = spans_end(pos, spans);
                match slot_match(input, p as int, slots.last()) {
                    None => Err(((slots.len() - 1) as nat, p)),
                    Some((len, inserted)) => Ok(
                        spans.push(
                            SlotSpan {
                                column: col,
                                index: (slots.len() - 1) as nat,
                                start: p,
                                len,
                                inserted,
                            },
                        ),
                    ),
                }
            },
        }
    }
}

/// The result of walking some columns: every slot's span, each column's start, end and first
/// slot, and the character where the walk stands.
pub struct Walk {
    pub spans: Seq<SlotSpan>,
    pub columns: Seq<(nat, nat, nat)>,
    pub pos: nat,
}

/// Where a column starts: at the text's start for the first, after one line break for the rest.
pub open spec fn column_start(input: Seq<char>, pos: nat, col: nat) -> Option<nat> {
    if col == 0 {
        Some(pos)
    } else {
        match break_len(input, pos as int) {
            Some(b) => Some(pos + b),
            None => None,
        }
    }
}

/// Walks the columns in order; an error names the column, the slot (none where a line break was
/// expected), and the character where the walk stood.
pub open spec fn walk_layout(input: Seq<char>, cols: Seq<Seq<(SlotKind, Seq<char>)>>) -> Result<
    Walk,
    (nat, Option<nat>, nat),
>
    decreases cols.len(),
{
    if cols.len() == 0 {
        Ok(Walk { spans: Seq::empty(), columns: Seq::empty(), pos: 0 })
    } else {
        match walk_layout(input, cols.drop_last()) {
            Err(e) => Err(e),
            Ok(w) => {
                let c = (cols.len() - 1) as nat;
                match column_start(input, w.pos, c) {
                    None => Err(((c - 1) as nat, None, w.pos)),
                    Some(start) => match walk_column(input, start, c, cols.last()) {
                        Err((i, p)) => Err((c, Some(i), p)),
                        Ok(spans) => Ok(
                            Walk {
                                spans: w.spans + spans,
                                columns: w.columns.push((start, spans_end(start, spans), w.spans.len())),
                                pos: spans_end(start, spans),
                            },
                        ),
                    },
                }
            },
        }
    }
}

/// The walk of a whole layout, which must also end where the text ends.
pub open spec fn spec_source_walk(input: Seq<char>, cols: Seq<Seq<(SlotKind, Seq<char>)>>) -> Result<
    Walk,
    (nat, Option<nat>, nat),
> {
    match walk_layout(input, cols) {
        Err(e) => Err(e),
        Ok(w) => if w.pos == input.len() {
            Ok(w)
        } else {
            Err(
                (
                    if cols.len() > 0 {
                        (cols.len() - 1) as nat
                    } else {
                        0
                    },
                    None,
                    w.pos,
                ),
            )
        },
    }
}

/// The byte offset of character `pos`.
pub open spec fn offset_of(input: Seq<char>, pos: int) -> nat {
    byte_len(input.take(pos))
}

/// The grapheme boundaries of a span, as byte offsets: the start of each cluster of the span's
/// text, then its end.
/// The characters a span covers.
pub open spec fn span_text(input: Seq<char>, span: SlotSpan) -> Seq<char> {
    input.subrange(span.start as int, (span.start + span.len) as int)
}

pub open spec fn span_boundaries(input: Seq<char>, span: SlotSpan) -> Seq<usize> {
    let text = span_text(input, span);
    let cs = grapheme_clusters(text);
    Seq::new(
        cs.len(),
        |k: int| (offset_of(input, span.start as int) + byte_len(concat_all(cs.take(k)))) as usize,
    ).push(offset_of(input, (span.start + span.len) as int) as usize)
}

pub open spec fn source_is_span(s: SlotSourceView, input: Seq<char>, span: SlotSpan) -> bool {
    &&& s.column == span.column
    &&& s.index == span.index
    &&& s.start == offset_of(input, span.start as int)
    &&& s.end == offset_of(input, (span.start + span.len) as int)
    &&& s.inserted_hyphen == span.inserted
    &&& s.boundaries == span_boundaries(input, span)
    &&& partitions(grapheme_clusters(span_text(input, span)), span_text(input, span))
}

// ---------------------------------------------------------------------------------------------
// The map.
// ---------------------------------------------------------------------------------------------

/// The two-way map between a text and its layout.
#[derive(Debug, PartialEq, Eq)]
pub struct SourceMap {
    slots: Vec<SlotSource>,
    /// Per column: its source bytes, excluding the line break that ends it, and the position of
    /// its first slot in `slots`.
    columns: Vec<(Range<usize>, usize)>,
}

/// What a source map says, as plain values: every slot's source in source order, and per
/// column its first byte, its end, and the position of its first slot.
pub struct SourceMapView {
    pub slots: Seq<SlotSourceView>,
    pub columns: Seq<(usize, usize, usize)>,
}

pub open spec fn column_triple(c: (Range<usize>, usize)) -> (usize, usize, usize) {
    (c.0.start, c.0.end, c.1)
}

impl View for SourceMap {
    type V = SourceMapView;

    closed spec fn view(&self) -> SourceMapView {
        SourceMapView {
            slots: self.slots@.map_values(|s: SlotSource| s@),
            columns: self.columns@.map_values(|c: (Range<usize>, usize)| column_triple(c)),
        }
    }
}

/// Where the slots of column `c` end, given that later columns start at their first slot and
/// the last one ends at `end`.
pub open spec fn next_first(columns: Seq<(usize, usize, usize)>, c: int, end: int) -> int {
    if c + 1 < columns.len() {
        columns[c + 1].2 as int
    } else {
        end
    }
}

/// The shape of a source map whose last column's slots end at position `end`: each column's
/// slots follow one another, know their column and index, and the last of them ends where the
/// column ends; every slot's boundaries end where the slot does.
pub open spec fn shaped(slots: Seq<SlotSourceView>, columns: Seq<(usize, usize, usize)>, end: int) -> bool {
    &&& forall|c: int|
        0 <= c < columns.len() ==> (#[trigger] columns[c]).2 <= next_first(columns, c, end) <= end
    &&& end <= slots.len()
    &&& forall|c: int, j: int|
        #![trigger columns[c], slots[j]]
        0 <= c < columns.len() && columns[c].2 <= j < next_first(columns, c, end) ==> slots[j].column
            == c && slots[j].index == j - columns[c].2
    &&& forall|c: int|
        0 <= c < columns.len() && columns[c].2 < next_first(columns, c, end) ==> slots[next_first(
            columns,
            c,
            end,
        ) - 1].end == (#[trigger] columns[c]).1
    &&& forall|c: int|
        0 <= c < columns.len() && columns[c].2 == next_first(columns, c, end) ==> (
        #[trigger] columns[c]).0 == columns[c].1
    &&& forall|j: int|
        0 <= j < slots.len() ==> 1 <= (#[trigger] slots[j]).boundaries.len() <= usize::MAX
            && slots[j].boundaries.last() == slots[j].end
}

#[verifier::opaque]
pub open spec fn map_wf(m: SourceMapView) -> bool {
    &&& shaped(m.slots, m.columns, m.slots.len() as int)
    &&& m.columns.len() <= usize::MAX
}

impl SourceMap {
    #[verifier::type_invariant]
    spec fn inv(self) -> bool {
        map_wf(self@) && ordered_map(self@)
    }
}

pub open spec fn slots_are_spans(slots: Seq<SlotSourceView>, input: Seq<char>, spans: Seq<SlotSpan>) -> bool {
    &&& slots.len() == spans.len()
    &&& forall|j: int| 0 <= j < slots.len() ==> source_is_span(#[trigger] slots[j], input, spans[j])
}

pub open spec fn columns_are(
    columns: Seq<(usize, usize, usize)>,
    input: Seq<char>,
    walked: Seq<(nat, nat, nat)>,
) -> bool {
    &&& columns.len() == walked.len()
    &&& forall|c: int|
        0 <= c < columns.len() ==> #[trigger] columns[c] == (
            offset_of(input, walked[c].0 as int) as usize,
            offset_of(input, walked[c].1 as int) as usize,
            walked[c].2 as usize,
        )
}

/// The map of `input` that a walk describes.
pub open spec fn map_is_walk(m: SourceMapView, input: Seq<char>, w: Walk) -> bool {
    slots_are_spans(m.slots, input, w.spans) && columns_are(m.columns, input, w.columns)
}

pub open spec fn error_is(e: SourceMapError, input: Seq<char>, found: (nat, Option<nat>, nat)) -> bool {
    &&& e.column == found.0
    &&& (e.index matches Some(i) ==> found.1 == Some(i as nat))
    &&& (e.index is None ==> found.1 is None)
    &&& e.offset == offset_of(input, found.2 as int)
}

/// The text a slot shows.
pub fn slot_text(slot: &Slot) -> (text: &str)
    ensures
        text@ == slot@.1,
{
    match slot {
        Slot::Upright(s) => s.as_str(),
        Slot::LatinWord(s) => s.as_str(),
        Slot::MongolianRun(s) => s.as_str(),
        Slot::Space(s) => s.as_str(),
        Slot::VerticalPunctuation(s) => s.as_str(),
        Slot::CornerPunctuation(s) => s.as_str(),
        Slot::Neutral(s) => s.as_str(),
    }
}

fn is_latin_word(slot: &Slot) -> (r: bool)
    ensures
        r == (slot@.0 == SlotKind::LatinWord),
{
    match slot {
        Slot::LatinWord(_) => true,
        _ => false,
    }
}

/// Whether the first `n` characters of `text` stand at character `pos` of `chars`.
fn prefix_matches(chars: &Vec<char>, pos: usize, text: &Vec<char>, n: usize) -> (r: bool)
    requires
        pos <= chars@.len(),
        n <= text@.len(),
    ensures
        r == starts_with(chars@.skip(pos as int), text@.take(n as int)),
{
    if n > chars.len() - pos {
        return false;
    }
    let mut i: usize = 0;
    while i < n
        invariant
            i <= n <= text@.len(),
            pos + n <= chars.len(),
            forall|k: int| 0 <= k < i ==> chars@[pos + k] == text@[k],
        decreases n - i,
    {
        if chars[pos + i] != text[i] {
            assert(chars@.skip(pos as int).take(n as int)[i as int] != text@.take(n as int)[i as int]);
            return false;
        }
        i = i + 1;
    }
    assert(chars@.skip(pos as int).take(n as int) =~= text@.take(n as int));
    true
}

/// Whether `s` is a line break: LF, CR, or CR LF.
fn is_line_break_text(s: &str) -> (r: bool)
    ensures
        r == is_line_break_cluster(s@),
{
    let chars = chars_of(s);
    let r = if chars.len() == 1 {
        chars[0] == '\n' || chars[0] == '\r'
    } else if chars.len() == 2 {
        chars[0] == '\r' && chars[1] == '\n'
    } else {
        false
    };
    proof {
        if chars@.len() == 1 {
            if chars@[0] == '\n' {
                assert(s@ =~= seq!['\n']);
            } else if chars@[0] == '\r' {
                assert(s@ =~= seq!['\r']);
            }
        } else if chars@.len() == 2 && chars@[0] == '\r' && chars@[1] == '\n' {
            assert(s@ =~= seq!['\r', '\n']);
        }
    }
    r
}

/// The source of the slot that shows characters `pos..pos + len` of `input`.
#[verifier::rlimit(30)]
fn slot_source_at(
    input: &str,
    pos: usize,
    len: usize,
    cursor: usize,
    column: usize,
    index: usize,
    inserted: bool,
) -> (s: SlotSource)
    requires
        pos + len <= input@.len(),
        pos + len <= usize::MAX,
        cursor == offset_of(input@, pos as int),
        byte_len(input@) <= usize::MAX,
    ensures
        source_is_span(
            s@,
            input@,
            SlotSpan {
                column: column as nat,
                index: index as nat,
                start: pos as nat,
                len: len as nat,
                inserted,
            },
        ),
        1 <= s@.boundaries.len() <= usize::MAX,
        s@.boundaries.last() == s@.end,
        s@.end == offset_of(input@, pos + len),
{
    let sub = input.substring_char(pos, pos + len);
    let clusters = graphemes(sub);
    let ghost cs = string_views(clusters@);
    let ghost base = offset_of(input@, pos as int);
    let ghost end = offset_of(input@, pos + len);
    proof {
        lemma_byte_len_append(input@.take(pos as int), sub@);
        assert(input@.take(pos + len) =~= input@.take(pos as int) + sub@);
        lemma_byte_len_prefix(input@, pos + len);
        assert(end == base + byte_len(sub@));
    }
    let mut boundaries: Vec<usize> = Vec::new();
    let mut b = cursor;
    let mut k: usize = 0;
    assert(cs.take(0) =~= Seq::<Seq<char>>::empty());
    assert(byte_len(concat_all(Seq::<Seq<char>>::empty())) == 0) by {
        assert(vstd::utf8::encode_utf8(Seq::<char>::empty()) =~= Seq::<u8>::empty());
    }
    while k < clusters.len()
        invariant
            k <= clusters@.len(),
            cs == string_views(clusters@),
            partitions(cs, sub@),
            end == base + byte_len(sub@),
            end <= usize::MAX,
            b == base + byte_len(concat_all(cs.take(k as int))),
            boundaries@ == Seq::new(
                k as nat,
                |j: int| (base + byte_len(concat_all(cs.take(j)))) as usize,
            ),
        decreases clusters@.len() - k,
    {
        let ghost before = boundaries@;
        boundaries.push(b);
        proof {
            crate::layout::lemma_concat_all_step(cs, k as int);
            assert(cs.take(k + 1) =~= cs.subrange(0, k + 1));
            assert(cs.take(k as int) =~= cs.subrange(0, k as int));
            lemma_byte_len_append(concat_all(cs.take(k as int)), cs[k as int]);
            crate::layout::lemma_concat_all_split(cs, k + 1);
            assert(cs.subrange(0, k + 1) =~= cs.take(k + 1));
            lemma_byte_len_append(
                concat_all(cs.take(k + 1)),
                concat_all(cs.subrange(k + 1, cs.len() as int)),
            );
            assert(boundaries@ =~= Seq::new(
                (k + 1) as nat,
                |j: int| (base + byte_len(concat_all(cs.take(j)))) as usize,
            ));
        }
        b = b + byte_count(clusters[k].as_str());
        k = k + 1;
    }
    proof {
        assert(cs.take(k as int) =~= cs);
    }
    let ghost inner = boundaries@;
    boundaries.push(b);
    // A `Vec` holds at most `usize::MAX` boundaries.
    let _count = boundaries.len();
    let s = SlotSource { column, index, range: cursor..b, inserted_hyphen: inserted, boundaries };
    proof {
        assert(s@.boundaries == inner.push(b));
        assert(sub@ == input@.subrange(pos as int, pos + len));
    }
    s
}

pub open spec fn source_views(slots: Seq<SlotSource>) -> Seq<SlotSourceView> {
    slots.map_values(|s: SlotSource| s@)
}

pub open spec fn column_views(columns: Seq<(Range<usize>, usize)>) -> Seq<(usize, usize, usize)> {
    columns.map_values(|c: (Range<usize>, usize)| column_triple(c))
}

proof fn lemma_walk_column_prefix_err(input: Seq<char>, pos: nat, col: nat, slots: Seq<(SlotKind, Seq<char>)>, k: int)
    requires
        0 <= k <= slots.len(),
        walk_column(input, pos, col, slots.take(k)) is Err,
    ensures
        walk_column(input, pos, col, slots) == walk_column(input, pos, col, slots.take(k)),
    decreases slots.len() - k,
{
    if k < slots.len() {
        assert(slots.take(k + 1).drop_last() =~= slots.take(k));
        lemma_walk_column_prefix_err(input, pos, col, slots, k + 1);
    } else {
        assert(slots.take(k) =~= slots);
    }
}

proof fn lemma_walk_layout_prefix_err(input: Seq<char>, cols: Seq<Seq<(SlotKind, Seq<char>)>>, k: int)
    requires
        0 <= k <= cols.len(),
        walk_layout(input, cols.take(k)) is Err,
    ensures
        walk_layout(input, cols) == walk_layout(input, cols.take(k)),
    decreases cols.len() - k,
{
    if k < cols.len() {
        assert(cols.take(k + 1).drop_last() =~= cols.take(k));
        lemma_walk_layout_prefix_err(input, cols, k + 1);
    } else {
        assert(cols.take(k) =~= cols);
    }
}

/// Adding a column whose slots follow the earlier ones keeps the shape of a map.
proof fn lemma_shaped_push(
    old_slots: Seq<SlotSourceView>,
    sv: Seq<SlotSourceView>,
    before_cols: Seq<(usize, usize, usize)>,
    start: usize,
    cursor: usize,
)
    requires
        shaped(old_slots, before_cols, old_slots.len() as int),
        old_slots.len() <= sv.len(),
        sv.subrange(0, old_slots.len() as int) == old_slots,
        forall|j: int|
            old_slots.len() <= j < sv.len() ==> (#[trigger] sv[j]).column == before_cols.len()
                && sv[j].index == j - old_slots.len(),
        forall|j: int|
            0 <= j < sv.len() ==> 1 <= (#[trigger] sv[j]).boundaries.len() <= usize::MAX && sv[j].boundaries.last()
                == sv[j].end,
        sv.len() > old_slots.len() ==> sv.last().end == cursor,
        sv.len() == old_slots.len() ==> cursor == start,
        old_slots.len() <= usize::MAX,
    ensures
        shaped(sv, before_cols.push((start, cursor, old_slots.len() as usize)), sv.len() as int),
{
    let first = old_slots.len() as int;
    let cv = before_cols.push((start, cursor, old_slots.len() as usize));
    assert forall|j: int| 0 <= j < first implies #[trigger] sv[j] == old_slots[j] by {
        assert(sv.subrange(0, first)[j] == sv[j]);
    }
    assert forall|k: int| 0 <= k < cv.len() implies (#[trigger] cv[k]).2 <= next_first(
        cv,
        k,
        sv.len() as int,
    ) <= sv.len() by {
        if k < before_cols.len() {
            assert(cv[k] == before_cols[k]);
            if k + 1 < before_cols.len() {
                assert(cv[k + 1] == before_cols[k + 1]);
            }
            assert(before_cols[k].2 <= next_first(before_cols, k, first) <= first);
        }
    }
    assert forall|k: int, j: int|
        #![trigger cv[k], sv[j]]
        0 <= k < cv.len() && cv[k].2 <= j < next_first(cv, k, sv.len() as int) implies sv[j].column
            == k && sv[j].index == j - cv[k].2 by {
        if k < before_cols.len() {
            assert(cv[k] == before_cols[k]);
            if k + 1 < before_cols.len() {
                assert(cv[k + 1] == before_cols[k + 1]);
            }
            assert(next_first(cv, k, sv.len() as int) == next_first(before_cols, k, first));
            assert(sv[j] == old_slots[j]);
            assert(before_cols[k].2 <= j < next_first(before_cols, k, first));
        }
    }
    assert forall|k: int|
        0 <= k < cv.len() && cv[k].2 < next_first(cv, k, sv.len() as int) implies sv[next_first(
            cv,
            k,
            sv.len() as int,
        ) - 1].end == (#[trigger] cv[k]).1 by {
        if k < before_cols.len() {
            assert(cv[k] == before_cols[k]);
            if k + 1 < before_cols.len() {
                assert(cv[k + 1] == before_cols[k + 1]);
            }
            let nf = next_first(cv, k, sv.len() as int);
            assert(nf == next_first(before_cols, k, first));
            assert(sv[nf - 1] == old_slots[nf - 1]);
            assert(before_cols[k].2 < next_first(before_cols, k, first));
        }
    }
    assert forall|k: int|
        0 <= k < cv.len() && cv[k].2 == next_first(cv, k, sv.len() as int) implies (
        #[trigger] cv[k]).0 == cv[k].1 by {
        if k < before_cols.len() {
            assert(cv[k] == before_cols[k]);
            if k + 1 < before_cols.len() {
                assert(cv[k + 1] == before_cols[k + 1]);
            }
            assert(before_cols[k].2 == next_first(before_cols, k, first));
        }
    }
}

/// Maps the slots of one column, which starts at character `start_pos` (byte `start`), and
/// appends their sources to `slots`.
#[verifier::rlimit(30)]
fn map_column(
    input: &str,
    chars: &Vec<char>,
    total: usize,
    column: &crate::layout::Column,
    c: usize,
    start_pos: usize,
    start: usize,
    slots: &mut Vec<SlotSource>,
) -> (r: Result<(usize, usize), (usize, usize)>)
    requires
        chars@ == input@,
        total == byte_len(input@),
        start_pos <= input@.len(),
        start == offset_of(input@, start_pos as int),
        forall|j: int|
            0 <= j < source_views(old(slots)@).len() ==> (#[trigger] source_views(
                old(slots)@,
            )[j]).boundaries.len() >= 1 && source_views(old(slots)@)[j].boundaries.len() <= usize::MAX && source_views(old(slots)@)[j].boundaries.last()
                == source_views(old(slots)@)[j].end,
    ensures
        match walk_column(input@, start_pos as nat, c as nat, slots_view(column.slots@)) {
            Ok(spans) => r matches Ok((pos, cursor)) && {
                let old_v = source_views(old(slots)@);
                let new_v = source_views(final(slots)@);
                &&& pos == spans_end(start_pos as nat, spans)
                &&& pos <= input@.len()
                &&& cursor == offset_of(input@, pos as int)
                &&& new_v.len() == old_v.len() + spans.len()
                &&& new_v.subrange(0, old_v.len() as int) == old_v
                &&& forall|j: int|
                    0 <= j < spans.len() ==> source_is_span(
                        #[trigger] new_v[old_v.len() + j],
                        input@,
                        spans[j],
                    )
                &&& forall|j: int|
                    old_v.len() <= j < new_v.len() ==> (#[trigger] new_v[j]).column == c
                        && new_v[j].index == j - old_v.len()
                &&& forall|j: int|
                    0 <= j < new_v.len() ==> 1 <= (#[trigger] new_v[j]).boundaries.len() <= usize::MAX
                        && new_v[j].boundaries.last() == new_v[j].end
                &&& new_v.len() > old_v.len() ==> new_v.last().end == cursor
                &&& new_v.len() == old_v.len() ==> cursor == start
            },
            Err((i, p)) => r matches Err((ri, off)) && ri == i && off == offset_of(input@, p as int),
        },
{
    let ghost col_slots = slots_view(column.slots@);
    let ghost old_slots = source_views(slots@);
    let first_slot = slots.len();
    assert(chars@.len() == chars.len());
    let ghost mut spans: Seq<SlotSpan> = Seq::empty();
    let mut pos = start_pos;
    let mut cursor = start;
    let mut i: usize = 0;
    proof {
        assert(col_slots.take(0) =~= Seq::<(SlotKind, Seq<char>)>::empty());
        assert(source_views(slots@).subrange(0, first_slot as int) =~= old_slots);
    }
    while i < column.slots.len()
        invariant
            chars@ == input@,
            total == byte_len(input@),
            col_slots == slots_view(column.slots@),
            i <= column.slots@.len(),
            input@.len() <= usize::MAX,
            start_pos <= pos <= input@.len(),
            cursor == offset_of(input@, pos as int),
            start == offset_of(input@, start_pos as int),
            walk_column(input@, start_pos as nat, c as nat, col_slots.take(i as int)) == Ok::<
                Seq<SlotSpan>,
                (nat, nat),
            >(spans),
            spans_end(start_pos as nat, spans) == pos,
            first_slot == old_slots.len(),
            source_views(slots@).len() == first_slot + spans.len(),
            source_views(slots@).subrange(0, first_slot as int) == old_slots,
            forall|j: int|
                0 <= j < spans.len() ==> source_is_span(
                    #[trigger] source_views(slots@)[first_slot + j],
                    input@,
                    spans[j],
                ),
            forall|j: int|
                first_slot <= j < source_views(slots@).len() ==> (#[trigger] source_views(
                    slots@,
                )[j]).column == c && source_views(slots@)[j].index == j - first_slot,
            forall|j: int|
                0 <= j < source_views(slots@).len() ==> (#[trigger] source_views(
                    slots@,
                )[j]).boundaries.len() >= 1 && source_views(slots@)[j].boundaries.len() <= usize::MAX && source_views(slots@)[j].boundaries.last()
                    == source_views(slots@)[j].end,
            spans.len() > 0 ==> source_views(slots@).last().end == cursor,
            spans.len() == 0 ==> cursor == start,
            spans.len() == i,
        decreases column.slots@.len() - i,
    {
        let slot = &column.slots[i];
        let text = chars_of(slot_text(slot));
        let n = text.len();
        proof {
            assert(col_slots.take(i + 1).drop_last() =~= col_slots.take(i as int));
            assert(col_slots.take(i + 1).last() == slot@);
            assert(text@.take(n as int) =~= text@);
        }
        let (len, inserted) = if prefix_matches(chars, pos, &text, n) {
            (n, false)
        } else if is_latin_word(slot) && n > 0 && text[n - 1] == '\u{2010}' && prefix_matches(
            chars,
            pos,
            &text,
            n - 1,
        ) {
            proof {
                assert(text@.take(n - 1) =~= text@.drop_last());
            }
            (n - 1, true)
        } else {
            proof {
                lemma_walk_column_prefix_err(input@, start_pos as nat, c as nat, col_slots, i + 1);
            }
            return Err((i, cursor));
        };
        proof {
            assert(slot_match(input@, pos as int, slot@) == Some((len as nat, inserted)));
        }
        let source = slot_source_at(input, pos, len, cursor, c, i, inserted);
        cursor = source.range.end;
        let ghost span = SlotSpan {
            column: c as nat,
            index: i as nat,
            start: pos as nat,
            len: len as nat,
            inserted,
        };
        let ghost before = source_views(slots@);
        slots.push(source);
        proof {
            spans = spans.push(span);
            assert(source_views(slots@) =~= before.push(source@));
            assert(source_views(slots@).subrange(0, first_slot as int) =~= old_slots);
        }
        pos = pos + len;
        i = i + 1;
    }
    proof {
        assert(col_slots.take(i as int) =~= col_slots);
    }
    Ok((pos, cursor))
}

/// Maps `layout`, which must be the layout of `input`, back onto `input`: walks its slots over
/// the text and refuses, naming the column and slot, the first place where they do not line up.
#[verifier::rlimit(40)]
pub fn source_map(input: &str, layout: &Layout) -> (result: Result<SourceMap, SourceMapError>)
    ensures
        match spec_source_walk(input@, layout.slots_of()) {
            Ok(w) => result matches Ok(m) && map_is_walk(m@, input@, w),
            Err(found) => result matches Err(e) && error_is(e, input@, found),
        },
        result matches Ok(m) ==> ordered_map(m@),
{
    let chars = chars_of(input);
    let total = byte_count(input);
    let ghost cols = layout.slots_of();
    let mut slots: Vec<SlotSource> = Vec::new();
    let mut columns: Vec<(Range<usize>, usize)> = Vec::new();
    let mut pos: usize = 0;
    let mut cursor: usize = 0;
    let mut c: usize = 0;
    proof {
        assert(cols.take(0) =~= Seq::<Seq<(SlotKind, Seq<char>)>>::empty());
        assert(input@.take(0) =~= Seq::<char>::empty());
        assert(vstd::utf8::encode_utf8(Seq::<char>::empty()) =~= Seq::<u8>::empty());
        assert(source_views(slots@) =~= Seq::<SlotSourceView>::empty());
        assert(column_views(columns@) =~= Seq::<(usize, usize, usize)>::empty());
    }
    while c < layout.columns.len()
        invariant
            chars@ == input@,
            total == byte_len(input@),
            c <= layout.columns@.len(),
            cols == layout.slots_of(),
            cols.len() == layout.columns@.len(),
            pos <= input@.len(),
            columns@.len() == c,
            cursor == offset_of(input@, pos as int),
            walk_layout(input@, cols.take(c as int)) is Ok,
            walk_layout(input@, cols.take(c as int))->Ok_0.pos == pos,
            map_is_walk(
                SourceMapView { slots: source_views(slots@), columns: column_views(columns@) },
                input@,
                walk_layout(input@, cols.take(c as int))->Ok_0,
            ),
            shaped(source_views(slots@), column_views(columns@), slots@.len() as int),
        decreases layout.columns@.len() - c,
    {
        let ghost w = walk_layout(input@, cols.take(c as int))->Ok_0;
        proof {
            assert(cols.take(c + 1).drop_last() =~= cols.take(c as int));
            assert(cols.take(c + 1).last() == cols[c as int]);
            lemma_byte_len_prefix(input@, pos as int);
        }
        if c > 0 {
            // One line break ends the previous column: "\r\n" is one cluster.
            let rest = input.substring_char(pos, chars.len());
            let clusters = graphemes(rest);
            if clusters.len() == 0 || !is_line_break_text(clusters[0].as_str()) {
                proof {
                    assert(rest@ =~= input@.skip(pos as int));
                    lemma_first_cluster_break(rest@, string_views(clusters@));
                    lemma_break_len_skip(input@, pos as int);
                    lemma_walk_layout_prefix_err(input@, cols, c + 1);
                }
                return Err(SourceMapError { column: c - 1, index: None, offset: cursor });
            }
            let ghost cs = string_views(clusters@);
            let n = clusters[0].as_str().unicode_len();
            let width = byte_count(clusters[0].as_str());
            proof {
                assert(rest@ =~= input@.skip(pos as int));
                lemma_first_cluster_break(rest@, cs);
                lemma_break_len_skip(input@, pos as int);
                crate::layout::lemma_concat_all_split(cs, 1);
                crate::layout::lemma_concat_all_step(cs, 0);
                assert(cs.subrange(0, 0) =~= Seq::<Seq<char>>::empty());
                assert(concat_all(Seq::<Seq<char>>::empty()) == Seq::<char>::empty());
                assert(Seq::<char>::empty() + cs[0] =~= cs[0]);
                assert(concat_all(cs) == cs[0] + concat_all(cs.subrange(1, cs.len() as int)));
                assert(rest@.take(n as int) =~= cs[0]);
                assert(input@.take(pos + n) =~= input@.take(pos as int) + cs[0]);
                lemma_byte_len_append(input@.take(pos as int), cs[0]);
                lemma_byte_len_prefix(input@, pos + n);
            }
            cursor = cursor + width;
            pos = pos + n;
        }
        let start = cursor;
        let start_pos = pos;
        let first_slot = slots.len();
        let ghost old_slots = source_views(slots@);
        let ghost before_cols = column_views(columns@);
        assert(cols[c as int] == slots_view(layout.columns[c as int].slots@));
        match map_column(input, &chars, total, &layout.columns[c], c, start_pos, start, &mut slots) {
            Err((i, offset)) => {
                proof {
                    lemma_walk_layout_prefix_err(input@, cols, c + 1);
                }
                return Err(SourceMapError { column: c, index: Some(i), offset });
            },
            Ok((p, cur)) => {
                pos = p;
                cursor = cur;
            },
        }
        columns.push((start..cursor, first_slot));
        proof {
            let spans = walk_column(input@, start_pos as nat, c as nat, cols[c as int])->Ok_0;
            assert(column_views(columns@) =~= before_cols.push((start, cursor, first_slot)));
            let w2 = walk_layout(input@, cols.take(c + 1));
            assert(w2 is Ok);
            assert(w2->Ok_0.spans == w.spans + spans);
            let sv = source_views(slots@);
            assert(slots_are_spans(sv, input@, w2->Ok_0.spans)) by {
                assert forall|j: int| 0 <= j < sv.len() implies source_is_span(
                    #[trigger] sv[j],
                    input@,
                    w2->Ok_0.spans[j],
                ) by {
                    if j < first_slot {
                        assert(sv.subrange(0, first_slot as int)[j] == sv[j]);
                        assert(sv[j] == old_slots[j]);
                    } else {
                        assert(sv[j] == sv[first_slot + (j - first_slot)]);
                    }
                }
            }
            let cv = column_views(columns@);
            assert forall|k: int| 0 <= k < cv.len() implies #[trigger] cv[k] == (
                offset_of(input@, w2->Ok_0.columns[k].0 as int) as usize,
                offset_of(input@, w2->Ok_0.columns[k].1 as int) as usize,
                w2->Ok_0.columns[k].2 as usize,
            ) by {
                if k < before_cols.len() {
                    assert(cv[k] == before_cols[k]);
                }
            }
            lemma_shaped_push(old_slots, sv, before_cols, start, cursor);
        }
        c = c + 1;
    }
    proof {
        assert(cols.take(c as int) =~= cols);
    }
    if pos != chars.len() {
        let last = if layout.columns.len() > 0 {
            layout.columns.len() - 1
        } else {
            0
        };
        return Err(SourceMapError { column: last, index: None, offset: cursor });
    }
    let column_count = columns.len();
    let slot_count = slots.len();
    proof {
        reveal(map_wf);
        assert(column_views(columns@).len() == column_count);
        assert(source_views(slots@).len() == slot_count);
    }
    proof {
        let v = SourceMapView { slots: source_views(slots@), columns: column_views(columns@) };
        lemma_walk_layout_shape(input@, cols);
        lemma_walk_map_ordered(input@, walk_layout(input@, cols)->Ok_0, v);
    }
    let m = SourceMap { slots, columns };
    proof {
        assert(m@ == SourceMapView { slots: source_views(m.slots@), columns: column_views(m.columns@) });
    }
    Ok(m)
}

// ---------------------------------------------------------------------------------------------
// Lookups.
// ---------------------------------------------------------------------------------------------

/// The first column from `k` on that does not end before `offset`.
pub open spec fn first_column_reaching(cols: Seq<(usize, usize, usize)>, offset: usize, k: int) -> int
    decreases cols.len() - k,
{
    if k >= cols.len() || k < 0 {
        cols.len() as int
    } else if !(cols[k].1 < offset) {
        k
    } else {
        first_column_reaching(cols, offset, k + 1)
    }
}

/// The first slot in `k..end` that ends after `offset`.
pub open spec fn first_slot_past(slots: Seq<SlotSourceView>, offset: usize, k: int, end: int) -> int
    decreases end - k,
{
    if k >= end || k < 0 {
        end
    } else if !(slots[k].end <= offset) {
        k
    } else {
        first_slot_past(slots, offset, k + 1, end)
    }
}

/// The position of `offset` among `bs` from `k` on (the first, should it occur twice).
pub open spec fn position_of(bs: Seq<usize>, offset: usize, k: int) -> Option<int>
    decreases bs.len() - k,
{
    if k >= bs.len() || k < 0 {
        None
    } else if bs[k] == offset {
        Some(k)
    } else {
        position_of(bs, offset, k + 1)
    }
}

/// How many slots column `c` has.
pub open spec fn spec_slot_count(m: SourceMapView, c: int) -> int {
    next_first(m.columns, c, m.slots.len() as int) - m.columns[c].2
}

/// Where slot `index` of `column` stands among all slots, if there is such a slot.
pub open spec fn spec_slot_position(m: SourceMapView, column: usize, index: usize) -> Option<int> {
    if column < m.columns.len() {
        let j = m.columns[column as int].2 + index;
        if j < m.slots.len() && m.slots[j].column == column {
            Some(j)
        } else {
            None
        }
    } else {
        None
    }
}

/// The slot that shows the byte at `offset`: the first slot that ends after it, if that slot
/// starts at or before it.
pub open spec fn spec_slot_at(m: SourceMapView, offset: usize) -> Option<int> {
    let at = first_slot_past(m.slots, offset, 0, m.slots.len() as int);
    if at < m.slots.len() && m.slots[at].start <= offset {
        Some(at)
    } else {
        None
    }
}

/// The caret at byte `offset`: in the first column that does not end before it, before the
/// grapheme of the first slot that ends after it whose boundary `offset` is; at the end of the
/// column for its end; the one caret of an empty column for its start.
pub open spec fn spec_caret(m: SourceMapView, offset: usize) -> Option<Caret> {
    let column = first_column_reaching(m.columns, offset, 0);
    if column >= m.columns.len() {
        None
    } else {
        let (start, end, first) = m.columns[column];
        let n = spec_slot_count(m, column);
        if offset < start {
            None
        } else if n <= 0 {
            if offset == start {
                Some(Caret { column: column as usize, index: 0, grapheme: 0 })
            } else {
                None
            }
        } else if offset == end {
            let last = m.slots[first + n - 1];
            Some(
                Caret {
                    column: column as usize,
                    index: last.index,
                    grapheme: (last.boundaries.len() - 1) as usize,
                },
            )
        } else {
            let k = first_slot_past(m.slots, offset, first as int, first + n);
            match position_of(m.slots[k].boundaries, offset, 0) {
                Some(g) => Some(
                    Caret { column: column as usize, index: m.slots[k].index, grapheme: g as usize },
                ),
                None => None,
            }
        }
    }
}

/// The byte offset of `caret`: the start of an empty column for its one caret, otherwise the
/// boundary it names in the slot it names. The end of a slot is a caret only for the last slot
/// of its column; after any other slot that position is written as the start of the next.
pub open spec fn spec_offset(m: SourceMapView, caret: Caret) -> Option<usize> {
    if caret.column >= m.columns.len() {
        None
    } else if spec_slot_count(m, caret.column as int) <= 0 {
        if caret.index == 0 && caret.grapheme == 0 {
            Some(m.columns[caret.column as int].0)
        } else {
            None
        }
    } else {
        match spec_slot_position(m, caret.column, caret.index) {
            Some(j) => if caret.grapheme + 1 < m.slots[j].boundaries.len() || (caret.grapheme + 1
                == m.slots[j].boundaries.len() && caret.index + 1 == spec_slot_count(
                m,
                caret.column as int,
            )) {
                Some(m.slots[j].boundaries[caret.grapheme as int])
            } else {
                None
            },
            None => None,
        }
    }
}

impl SourceMap {
    /// Every slot's source, in source order.
    pub fn slots(&self) -> (s: &[SlotSource])
        ensures
            s@.map_values(|x: SlotSource| x@) == self@.slots,
            forall|j: int|
                0 <= j < self@.slots.len() ==> (#[trigger] self@.slots[j]).boundaries.len() >= 1,
    {
        proof {
            use_type_invariant(self);
            reveal(map_wf);
        }
        self.slots.as_slice()
    }

    /// How many columns the layout has, including columns with no slots.
    pub fn columns(&self) -> (n: usize)
        ensures
            n == self@.columns.len(),
    {
        self.columns.len()
    }

    /// The source of slot `index` in `column`.
    pub fn slot(&self, column: usize, index: usize) -> (r: Option<&SlotSource>)
        ensures
            match spec_slot_position(self@, column, index) {
                Some(j) => r matches Some(s) && s@ == self@.slots[j],
                None => r is None,
            },
    {
        if column >= self.columns.len() {
            return None;
        }
        let first = self.columns[column].1;
        if index >= self.slots.len() || first >= self.slots.len() - index {
            return None;
        }
        let found = &self.slots[first + index];
        if found.column == column {
            Some(found)
        } else {
            None
        }
    }

    /// The slot that shows the byte at `offset`, if any. Line breaks belong to no slot.
    pub fn slot_at(&self, offset: usize) -> (r: Option<&SlotSource>)
        ensures
            match spec_slot_at(self@, offset) {
                Some(j) => r matches Some(s) && s@ == self@.slots[j],
                None => r is None,
            },
    {
        let at = self.first_slot_past(offset, 0, self.slots.len());
        if at < self.slots.len() && self.slots[at].range.start <= offset {
            Some(&self.slots[at])
        } else {
            None
        }
    }

    fn first_slot_past(&self, offset: usize, from: usize, end: usize) -> (k: usize)
        requires
            from <= end <= self@.slots.len(),
        ensures
            k == first_slot_past(self@.slots, offset, from as int, end as int),
    {
        let mut k = from;
        while k < end && self.slots[k].range.end <= offset
            invariant
                from <= k <= end <= self@.slots.len(),
                first_slot_past(self@.slots, offset, from as int, end as int) == first_slot_past(
                    self@.slots,
                    offset,
                    k as int,
                    end as int,
                ),
            decreases end - k,
        {
            assert(self@.slots[k as int] == self.slots@[k as int]@);
            k = k + 1;
        }
        proof {
            if k < end {
                assert(self@.slots[k as int] == self.slots@[k as int]@);
            }
        }
        k
    }

    /// How many slots column `column` has.
    fn slot_count(&self, column: usize) -> (n: usize)
        requires
            column < self@.columns.len(),
        ensures
            n == spec_slot_count(self@, column as int),
    {
        proof {
            use_type_invariant(self);
            lemma_column_facts(self@, column as int);
        }
        let first = self.columns[column].1;
        let next = if column < self.columns.len() - 1 {
            self.columns[column + 1].1
        } else {
            self.slots.len()
        };
        assert(self@.columns[column as int] == column_triple(self.columns@[column as int]));
        if column < self.columns.len() - 1 {
            assert(self@.columns[column + 1] == column_triple(self.columns@[column + 1]));
        }
        next - first
    }

    /// The first column that does not end before `offset`.
    fn column_reaching(&self, offset: usize) -> (column: usize)
        ensures
            column == first_column_reaching(self@.columns, offset, 0),
            column <= self@.columns.len(),
            column < self@.columns.len() ==> offset <= self@.columns[column as int].1,
    {
        let mut column: usize = 0;
        while column < self.columns.len() && self.columns[column].0.end < offset
            invariant
                column <= self@.columns.len(),
                first_column_reaching(self@.columns, offset, 0) == first_column_reaching(
                    self@.columns,
                    offset,
                    column as int,
                ),
            decreases self@.columns.len() - column,
        {
            assert(self@.columns[column as int] == column_triple(self.columns@[column as int]));
            column = column + 1;
        }
        proof {
            if column < self.columns.len() {
                assert(self@.columns[column as int] == column_triple(self.columns@[column as int]));
            }
        }
        column
    }

    /// Where `offset` stands among the grapheme boundaries of slot `k`.
    fn boundary_position(&self, k: usize, offset: usize) -> (r: Option<usize>)
        requires
            k < self@.slots.len(),
        ensures
            match position_of(self@.slots[k as int].boundaries, offset, 0) {
                Some(g) => r == Some(g as usize),
                None => r is None,
            },
    {
        let slot = &self.slots[k];
        assert(self@.slots[k as int] == slot@);
        let mut g: usize = 0;
        while g < slot.boundaries.len() && slot.boundaries[g] != offset
            invariant
                g <= slot.boundaries@.len(),
                position_of(slot.boundaries@, offset, 0) == position_of(
                    slot.boundaries@,
                    offset,
                    g as int,
                ),
            decreases slot.boundaries@.len() - g,
        {
            g = g + 1;
        }
        if g < slot.boundaries.len() {
            Some(g)
        } else {
            None
        }
    }

    /// The caret at source offset `offset`, or `None` if `offset` is not a grapheme boundary of
    /// a slot or of an empty column, or falls inside a line break.
    #[verifier::rlimit(30)]
    pub fn caret(&self, offset: usize) -> (r: Option<Caret>)
        ensures
            r == spec_caret(self@, offset),
            r matches Some(c) ==> spec_offset(self@, c) == Some(offset),
            (exists|j: int, g: int|
                0 <= j < self@.slots.len() && 0 <= g < self@.slots[j].boundaries.len()
                    && #[trigger] self@.slots[j].boundaries[g] == offset) ==> r is Some,
            (exists|c: int|
                0 <= c < self@.columns.len() && ((#[trigger] self@.columns[c]).0 == offset
                    || self@.columns[c].1 == offset)) ==> r is Some,
            (exists|c: int|
                0 <= c && c + 1 < self@.columns.len() && (#[trigger] self@.columns[c]).1 < offset
                    < self@.columns[c + 1].0) ==> r is None,
    {
        proof {
            use_type_invariant(self);
            caret_leads_back_to_its_offset(self@, offset);
            every_boundary_has_a_caret(self@);
        }
        let column = self.column_reaching(offset);
        if column >= self.columns.len() {
            return None;
        }
        assert(self@.columns[column as int] == column_triple(self.columns@[column as int]));
        proof {
            use_type_invariant(self);
            lemma_column_facts(self@, column as int);
        }
        let start = self.columns[column].0.start;
        let end = self.columns[column].0.end;
        let first = self.columns[column].1;
        if offset < start {
            return None;
        }
        let n = self.slot_count(column);
        let total = self.slots.len();
        assert(first + n <= total);
        if n == 0 {
            if offset == start {
                return Some(Caret { column, index: 0, grapheme: 0 });
            } else {
                return None;
            }
        }
        if offset == end {
            let last = &self.slots[first + n - 1];
            assert(self@.slots[first + n - 1] == last@);
            return Some(Caret { column, index: last.index, grapheme: last.graphemes() });
        }
        let k = self.first_slot_past(offset, first, first + n);
        proof {
            lemma_first_slot_past_bound(self@.slots, offset, first as int, first + n);
        }
        assert(self@.slots[k as int] == self.slots@[k as int]@);
        match self.boundary_position(k, offset) {
            Some(g) => Some(Caret { column, index: self.slots[k].index, grapheme: g }),
            None => None,
        }
    }

    /// The source offset of `caret`, or `None` if no such caret exists.
    pub fn offset(&self, caret: Caret) -> (r: Option<usize>)
        ensures
            r == spec_offset(self@, caret),
    {
        if caret.column >= self.columns.len() {
            return None;
        }
        assert(self@.columns[caret.column as int] == column_triple(
            self.columns@[caret.column as int],
        ));
        if self.slot_count(caret.column) == 0 {
            return if caret.index == 0 && caret.grapheme == 0 {
                Some(self.columns[caret.column].0.start)
            } else {
                None
            };
        }
        let count = self.slot_count(caret.column);
        match self.slot(caret.column, caret.index) {
            Some(s) => if caret.grapheme < s.boundaries.len() && (caret.grapheme < s.boundaries.len()
                - 1 || caret.index == count - 1) {
                Some(s.boundaries[caret.grapheme])
            } else {
                None
            },
            None => None,
        }
    }
}

/// What the shape of a map says of one of its columns.
pub open spec fn column_facts(m: SourceMapView, c: int) -> bool {
    let first = m.columns[c].2 as int;
    let n = spec_slot_count(m, c);
    &&& 0 <= n
    &&& first + n <= m.slots.len()
    &&& n > 0 ==> m.slots[first + n - 1].end == m.columns[c].1
    &&& n > 0 ==> 1 <= m.slots[first + n - 1].boundaries.len() <= usize::MAX
    &&& m.columns.len() <= usize::MAX
}

proof fn lemma_column_facts(m: SourceMapView, c: int)
    requires
        map_wf(m),
        0 <= c < m.columns.len(),
    ensures
        column_facts(m, c),
{
    let first = m.columns[c].2 as int;
    let nf = next_first(m.columns, c, m.slots.len() as int);
    assert(first <= nf <= m.slots.len()) by {
        reveal(map_wf);
    }
    assert(first < nf ==> m.slots[nf - 1].end == m.columns[c].1) by {
        reveal(map_wf);
    }
    assert(first < nf ==> 1 <= m.slots[nf - 1].boundaries.len() <= usize::MAX) by {
        reveal(map_wf);
    }
    assert(m.columns.len() <= usize::MAX) by {
        reveal(map_wf);
    }
}

proof fn lemma_slot_in_column(m: SourceMapView, c: int, j: int)
    requires
        map_wf(m),
        0 <= c < m.columns.len(),
        m.columns[c].2 <= j < m.columns[c].2 + spec_slot_count(m, c),
    ensures
        0 <= j < m.slots.len(),
        m.slots[j].column == c,
        m.slots[j].index == j - m.columns[c].2,
        1 <= m.slots[j].boundaries.len() <= usize::MAX,
        m.slots[j].boundaries.last() == m.slots[j].end,
{
    reveal(map_wf);
    assert(m.columns[c].2 <= next_first(m.columns, c, m.slots.len() as int) <= m.slots.len());
    assert(m.slots[j].column == c);
}

proof fn lemma_first_slot_past_bound(slots: Seq<SlotSourceView>, offset: usize, k: int, end: int)
    requires
        0 <= k < end <= slots.len(),
        slots[end - 1].end > offset,
    ensures
        k <= first_slot_past(slots, offset, k, end) < end,
        slots[first_slot_past(slots, offset, k, end)].end > offset,
    decreases end - k,
{
    if slots[k].end <= offset {
        lemma_first_slot_past_bound(slots, offset, k + 1, end);
    }
}


proof fn lemma_first_column_reaching(cols: Seq<(usize, usize, usize)>, offset: usize, k: int)
    requires
        0 <= k <= cols.len(),
    ensures
        k <= first_column_reaching(cols, offset, k) <= cols.len(),
        first_column_reaching(cols, offset, k) < cols.len() ==> offset <= cols[first_column_reaching(
            cols,
            offset,
            k,
        )].1,
    decreases cols.len() - k,
{
    if k < cols.len() && cols[k].1 < offset {
        lemma_first_column_reaching(cols, offset, k + 1);
    }
}

proof fn lemma_position_of(bs: Seq<usize>, offset: usize, k: int)
    requires
        0 <= k,
    ensures
        position_of(bs, offset, k) matches Some(g) ==> k <= g < bs.len() && bs[g] == offset,
    decreases bs.len() - k,
{
    if k < bs.len() && bs[k] != offset {
        lemma_position_of(bs, offset, k + 1);
    }
}

/// A caret found for a source offset leads back to that offset.
///
/// Whatever byte a caret is found for, asking the map for that caret's offset gives the byte
/// back; so two different bytes never share a caret.
pub proof fn caret_leads_back_to_its_offset(m: SourceMapView, offset: usize)
    requires
        map_wf(m),
    ensures
        spec_caret(m, offset) matches Some(c) ==> spec_offset(m, c) == Some(offset),
{
    let column = first_column_reaching(m.columns, offset, 0);
    lemma_first_column_reaching(m.columns, offset, 0);
    if column < m.columns.len() {
        let (start, end, first) = m.columns[column];
        let n = spec_slot_count(m, column);
        lemma_column_facts(m, column);
        if offset >= start && n > 0 {
            if offset == end {
                let j = first + n - 1;
                lemma_slot_in_column(m, column, j);
                assert(spec_slot_position(m, column as usize, m.slots[j].index) == Some(j));
            } else {
                let k = first_slot_past(m.slots, offset, first as int, first + n);
                lemma_first_slot_past_bound(m.slots, offset, first as int, first + n);
                lemma_slot_in_column(m, column, k);
                lemma_position_of(m.slots[k].boundaries, offset, 0);
                assert(spec_slot_position(m, column as usize, m.slots[k].index) == Some(k));
                let bs = m.slots[k].boundaries;
                if let Some(g) = position_of(bs, offset, 0) {
                    if g + 1 == bs.len() {
                        assert(bs.last() == bs[g]);
                    }
                }
            }
        }
    }
}

/// Two source offsets that have the same caret are the same offset.
pub proof fn carets_are_distinct(m: SourceMapView, a: usize, b: usize)
    requires
        map_wf(m),
        spec_caret(m, a) is Some,
        spec_caret(m, a) == spec_caret(m, b),
    ensures
        a == b,
{
    caret_leads_back_to_its_offset(m, a);
    caret_leads_back_to_its_offset(m, b);
}


/// What a refusal says, in words.
pub open spec fn error_message(e: SourceMapError) -> Seq<char> {
    match e.index {
        Some(index) => "slot "@ + decimal(index as nat) + " of column "@ + decimal(e.column as nat)
            + " does not match the text at byte "@ + decimal(e.offset as nat),
        None => "column "@ + decimal(e.column as nat)
            + " does not end where the text breaks a line (byte "@ + decimal(e.offset as nat)
            + ")"@,
    }
}

impl SourceMapError {
    /// Says where the layout stopped lining up with the text.
    pub fn message(&self) -> (text: String)
        ensures
            text@ == error_message(*self),
    {
        let mut text = String::new();
        match self.index {
            Some(index) => {
                text.append("slot ");
                push_decimal(&mut text, index);
                text.append(" of column ");
                push_decimal(&mut text, self.column);
                text.append(" does not match the text at byte ");
                push_decimal(&mut text, self.offset);
            },
            None => {
                text.append("column ");
                push_decimal(&mut text, self.column);
                text.append(" does not end where the text breaks a line (byte ");
                push_decimal(&mut text, self.offset);
                text.append(")");
            },
        }
        proof {
            assert(text@ =~= error_message(*self));
        }
        text
    }
}

/// The walk of `input` under the layout that `config` gives it.
pub open spec fn own_walk(input: Seq<char>, config: LayoutConfig) -> Result<
    Walk,
    (nat, Option<nat>, nat),
> {
    spec_source_walk(input, shown_columns(model_of(input, config).columns))
}

// ---------------------------------------------------------------------------------------------
// A layout lines up with its own text.
// ---------------------------------------------------------------------------------------------

proof fn lemma_hyphens_column(ms: Seq<SlotModel>)
    requires
        hyphens_latin(ms),
    ensures
        forall|k: int|
            0 <= k < ms.len() && (#[trigger] ms[k]).hyphen ==> ms[k].kind == SlotKind::LatinWord && (k
                + 1 < ms.len() ==> starts_plainly(ms[k + 1])),
        ms.len() > 0 ==> !ms.last().hyphen,
{
    if ms.len() > 0 {
        assert(ms.last() == ms[ms.len() - 1]);
    }
}

/// The slots of a column, whose sources stand at character `pos`, line up there one by one.
proof fn lemma_walk_model_column(input: Seq<char>, pos: nat, col: nat, ms: Seq<SlotModel>)
    requires
        pos + slots_source(ms).len() <= input.len(),
        input.subrange(pos as int, pos + slots_source(ms).len() as int) == slots_source(ms),
        forall|k: int|
            0 <= k < ms.len() && (#[trigger] ms[k]).hyphen ==> ms[k].kind == SlotKind::LatinWord && (k
                + 1 < ms.len() ==> starts_plainly(ms[k + 1])),
        ms.len() > 0 && ms.last().hyphen ==> pos + slots_source(ms).len() < input.len() && input[pos
            + slots_source(ms).len() as int] != INSERTED_HYPHEN,
    ensures
        walk_column(input, pos, col, shown_slots(ms)) is Ok,
        spans_end(pos, walk_column(input, pos, col, shown_slots(ms))->Ok_0) == pos + slots_source(
            ms,
        ).len(),
    decreases ms.len(),
{
    if ms.len() > 0 {
        let p = ms.drop_last();
        let m = ms.last();
        assert(slots_source(ms) == slots_source(p) + m.source);
        assert(input.subrange(pos as int, pos + slots_source(p).len() as int) =~= input.subrange(
            pos as int,
            pos + slots_source(ms).len() as int,
        ).take(slots_source(p).len() as int));
        assert(slots_source(p) =~= slots_source(ms).take(slots_source(p).len() as int));
        assert forall|k: int| 0 <= k < p.len() && (#[trigger] p[k]).hyphen implies p[k].kind
            == SlotKind::LatinWord && (k + 1 < p.len() ==> starts_plainly(p[k + 1])) by {
            assert(p[k] == ms[k]);
            if k + 1 < p.len() {
                assert(p[k + 1] == ms[k + 1]);
            }
        }
        if p.len() > 0 && p.last().hyphen {
            assert(p.last() == ms[p.len() - 1]);
            assert(ms[p.len() - 1].hyphen);
            assert(ms[p.len() - 1 + 1] == m);
            assert(starts_plainly(m));
            let at = pos + slots_source(p).len();
            assert(input.subrange(pos as int, pos + slots_source(ms).len() as int)[slots_source(
                p,
            ).len() as int] == input[at as int]);
            assert(slots_source(ms)[slots_source(p).len() as int] == m.source[0]);
        }
        lemma_walk_model_column(input, pos, col, p);
        assert(shown_slots(ms).drop_last() =~= shown_slots(p));
        assert(shown_slots(ms).last() == shown(m));
        let q = pos + slots_source(p).len();
        let rest = input.skip(q as int);
        let n = m.source.len();
        assert(rest.take(n as int) =~= m.source) by {
            assert forall|k: int| 0 <= k < n implies rest.take(n as int)[k] == m.source[k] by {
                assert(rest.take(n as int)[k] == input[q + k]);
                assert(input.subrange(pos as int, pos + slots_source(ms).len() as int)[slots_source(p).len()
                    + k] == input[q + k]);
                assert(slots_source(ms)[slots_source(p).len() + k] == m.source[k]);
            }
        }
        if m.hyphen {
            assert(ms[ms.len() - 1].hyphen);
            assert(m.kind == SlotKind::LatinWord);
            let shown_text = m.source.push(INSERTED_HYPHEN);
            assert(shown(m).1 == shown_text);
            if starts_with(rest, shown_text) {
                assert(rest.take(shown_text.len() as int)[n as int] == INSERTED_HYPHEN);
                assert(input[q + n as int] == INSERTED_HYPHEN);
            }
            assert(shown_text.drop_last() =~= m.source);
            assert(slot_match(input, q as int, shown(m)) == Some((n as nat, true)));
        } else {
            assert(shown(m).1 == m.source);
            assert(slot_match(input, q as int, shown(m)) == Some((n as nat, false)));
        }
    }
}

proof fn lemma_rejoin_prefix(cols: Seq<Seq<SlotModel>>, breaks: Seq<Seq<char>>, k: int)
    requires
        1 <= k < cols.len(),
        cols.len() == breaks.len() + 1,
    ensures
        rejoin(cols.take(k + 1), breaks.take(k)) == rejoin(cols.take(k), breaks.take(k - 1))
            + breaks[k - 1] + slots_source(cols[k]),
{
    assert(cols.take(k + 1).drop_last() =~= cols.take(k));
    assert(breaks.take(k).drop_last() =~= breaks.take(k - 1));
}

proof fn lemma_rejoin_is_prefix(cols: Seq<Seq<SlotModel>>, breaks: Seq<Seq<char>>, k: int)
    requires
        1 <= k <= cols.len(),
        cols.len() == breaks.len() + 1,
    ensures
        rejoin(cols.take(k), breaks.take(k - 1)).len() <= rejoin(cols, breaks).len(),
        rejoin(cols, breaks).take(rejoin(cols.take(k), breaks.take(k - 1)).len() as int) == rejoin(
            cols.take(k),
            breaks.take(k - 1),
        ),
    decreases cols.len() - k,
{
    if k == cols.len() {
        assert(cols.take(k) =~= cols);
        assert(breaks.take(k - 1) =~= breaks);
        assert(rejoin(cols, breaks).take(rejoin(cols, breaks).len() as int) =~= rejoin(cols, breaks));
    } else {
        lemma_rejoin_is_prefix(cols, breaks, k + 1);
        lemma_rejoin_prefix(cols, breaks, k);
        let a = rejoin(cols.take(k), breaks.take(k - 1));
        let b = rejoin(cols.take(k + 1), breaks.take(k));
        let all = rejoin(cols, breaks);
        assert(all.take(a.len() as int) =~= b.take(a.len() as int));
    }
}

/// The columns of a model that rejoins the text line up with it, column after column.
proof fn lemma_walk_model(
    input: Seq<char>,
    cols: Seq<Seq<SlotModel>>,
    breaks: Seq<Seq<char>>,
    last: Seq<char>,
    k: int,
)
    requires
        cols.len() == breaks.len() + 1,
        rejoin(cols, breaks) == input,
        forall|j: int| 0 <= j < breaks.len() ==> is_line_break_cluster(#[trigger] breaks[j]),
        all_hyphens_latin(cols),
        forall|j: int|
            0 <= j < breaks.len() && #[trigger] breaks[j] == seq!['\r'] ==> cr_alone(
                input,
                break_pos(cols, breaks, j),
                last,
            ),
        1 <= k <= cols.len(),
    ensures
        walk_layout(input, shown_columns(cols).take(k)) is Ok,
        walk_layout(input, shown_columns(cols).take(k))->Ok_0.pos == rejoin(
            cols.take(k),
            breaks.take(k - 1),
        ).len(),
    decreases k,
{
    let sc = shown_columns(cols);
    assert(sc.take(k).drop_last() =~= sc.take(k - 1));
    assert(sc.take(k).last() == shown_slots(cols[k - 1]));
    lemma_rejoin_is_prefix(cols, breaks, k);
    let r = rejoin(cols.take(k), breaks.take(k - 1));
    assert(hyphens_latin(cols[k - 1]));
    if k == 1 {
        assert(sc.take(0) =~= Seq::<Seq<(SlotKind, Seq<char>)>>::empty());
        assert(cols.take(1).len() == 1);
        assert(r == slots_source(cols[0]));
        assert(input.subrange(0, r.len() as int) =~= input.take(r.len() as int));
        lemma_hyphens_column(cols[0]);
        lemma_walk_model_column(input, 0, 0, cols[0]);
    } else {
        lemma_walk_model(input, cols, breaks, last, k - 1);
        lemma_rejoin_prefix(cols, breaks, k - 1);
        lemma_rejoin_is_prefix(cols, breaks, k - 1);
        let p = rejoin(cols.take(k - 1), breaks.take(k - 2)).len();
        let b = breaks[k - 2];
        let ss = slots_source(cols[k - 1]);
        assert(r == rejoin(cols.take(k - 1), breaks.take(k - 2)) + b + ss);
        assert(input.take(r.len() as int) == r);
        assert(is_line_break_cluster(b));
        assert(break_pos(cols, breaks, k - 2) == p);
        assert(r.len() <= input.len());
        let pre = rejoin(cols.take(k - 1), breaks.take(k - 2));
        assert(input[p as int] == b[0]) by {
            assert(input.take(r.len() as int)[p as int] == r[p as int]);
            assert(r[p as int] == (pre + b)[p as int]);
        }
        assert(b.len() == 2 ==> input[p + 1int] == b[1]) by {
            if b.len() == 2 {
                assert(input.take(r.len() as int)[p + 1int] == r[p + 1int]);
                assert(r[p + 1int] == (pre + b)[p + 1int]);
            }
        }
        if b == seq!['\r'] {
            assert(cr_alone(input, p as int, last));
            assert(input[p as int] == '\r');
        } else if b == seq!['\n'] {
            assert(input[p as int] == '\n');
        } else {
            assert(b == seq!['\r', '\n']);
            assert(input[p as int] == '\r');
            assert(input[p + 1int] == '\n');
        }
        assert(break_len(input, p as int) == Some(b.len()));
        let start = p + b.len();
        assert(input.subrange(start as int, start + ss.len() as int) =~= ss) by {
            assert forall|i: int| 0 <= i < ss.len() implies input[start + i] == ss[i] by {
                assert(input.take(r.len() as int)[start + i] == r[start + i]);
            }
        }
        lemma_hyphens_column(cols[k - 1]);
        lemma_walk_model_column(input, start as nat, (k - 1) as nat, cols[k - 1]);
    }
}

/// Under the layout of its own text, the walk always lines up with the text.
proof fn lemma_own_walk(input: Seq<char>, config: LayoutConfig)
    requires
        partitions(grapheme_clusters(input), input),
        line_breaks_apart(grapheme_clusters(input)),
        word_clusters_dash_free(grapheme_clusters(input)),
    ensures
        own_walk(input, config) is Ok,
{
    let m = model_of(input, config);
    lemma_model_lines_up(input, config.max_latin_word_width as nat);
    let last = last_cluster(grapheme_clusters(input));
    assert forall|j: int|
        0 <= j < m.breaks.len() && #[trigger] m.breaks[j] == seq!['\r'] implies cr_alone(
        input,
        break_pos(m.columns, m.breaks, j),
        last,
    ) by {
        assert(lone_crs(m, last));
    }
    lemma_walk_model(input, m.columns, m.breaks, last, m.columns.len() as int);
    assert(shown_columns(m.columns).take(m.columns.len() as int) =~= shown_columns(m.columns));
    assert(m.columns.take(m.columns.len() as int) =~= m.columns);
    assert(m.breaks.take(m.columns.len() - 1) =~= m.breaks);
}

/// Lays `input` out and maps the result back onto it.
///
/// A layout lines up with its own text, for every text: every slot shows its source, every
/// column ends at one line break, and the only character a slot adds is the hyphen the layout
/// inserts when it breaks a long word with no hyphen of its own. So the map always exists.
pub fn layout_with_source_map(input: &str, config: &LayoutConfig) -> (r: (Layout, SourceMap))
    ensures
        r.0.slots_of() == shown_columns(model_of(input@, *config).columns),
        r.0.progression == config.progression,
        own_walk(input@, *config) is Ok,
        map_is_walk(r.1@, input@, own_walk(input@, *config)->Ok_0),
        r.1@.columns.len() == r.0.slots_of().len(),
        forall|c: int|
            0 <= c < r.1@.columns.len() ==> #[trigger] spec_slot_count(r.1@, c) == r.0.slots_of()[c].len(),
{
    let layout = layout_text(input, config);
    proof {
        lemma_own_walk(input@, *config);
        lemma_walk_counts(input@, shown_columns(model_of(input@, *config).columns));
    }
    match source_map(input, &layout) {
        Ok(map) => {
            let total = map.slots.len();
            proof {
                let w = own_walk(input@, *config)->Ok_0;
                let m = map@;
                assert(m.slots.len() == total);
                assert forall|c: int| 0 <= c < m.columns.len() implies #[trigger] spec_slot_count(m, c)
                    == layout.slots_of()[c].len() by {
                    assert(m.columns[c].2 == w.columns[c].2);
                    if c + 1 < m.columns.len() {
                        assert(m.columns[c + 1].2 == w.columns[c + 1].2);
                    }
                }
            }
            (layout, map)
        },
        Err(_) => vstd::pervasive::unreached(),
    }
}


// ---------------------------------------------------------------------------------------------
// Each slot has one place.
// ---------------------------------------------------------------------------------------------

proof fn lemma_firsts_rise(m: SourceMapView, c1: int, c2: int)
    requires
        map_wf(m),
        0 <= c1 <= c2 < m.columns.len(),
    ensures
        m.columns[c1].2 <= m.columns[c2].2,
        c1 < c2 ==> next_first(m.columns, c1, m.slots.len() as int) <= m.columns[c2].2,
    decreases c2 - c1,
{
    reveal(map_wf);
    if c1 < c2 {
        lemma_firsts_rise(m, c1 + 1, c2);
        assert(m.columns[c1].2 <= next_first(m.columns, c1, m.slots.len() as int));
    }
}

/// The column whose slots include slot `j`, searched from column `c` on.
proof fn lemma_slot_column(m: SourceMapView, j: int, c: int) -> (found: int)
    requires
        map_wf(m),
        0 <= c < m.columns.len(),
        m.columns[c].2 <= j < m.slots.len(),
    ensures
        c <= found < m.columns.len(),
        m.columns[found].2 <= j < next_first(m.columns, found, m.slots.len() as int),
        m.slots[j].column == found,
        m.slots[j].index == j - m.columns[found].2,
    decreases m.columns.len() - c,
{
    reveal(map_wf);
    let total = m.slots.len() as int;
    if j < next_first(m.columns, c, total) {
        assert(m.slots[j].column == c);
        c
    } else {
        assert(c + 1 < m.columns.len());
        lemma_slot_column(m, j, c + 1)
    }
}

proof fn lemma_slot_column_from_start(m: SourceMapView, j: int) -> (found: int)
    requires
        map_wf(m),
        ordered_map(m),
        0 <= j < m.slots.len(),
    ensures
        0 <= found < m.columns.len(),
        m.columns[found].2 <= j < next_first(m.columns, found, m.slots.len() as int),
        m.slots[j].column == found,
        m.slots[j].index == j - m.columns[found].2,
{
    reveal(ordered_map);
    lemma_slot_column(m, j, 0)
}

/// Each slot is found at its own column and index, and an index past the last slot of a column
/// finds none: it never spills into the next column.
pub proof fn each_slot_is_found_at_its_place(m: SourceMapView)
    requires
        map_wf(m),
        ordered_map(m),
    ensures
        forall|j: int|
            0 <= j < m.slots.len() ==> spec_slot_position(
                m,
                (#[trigger] m.slots[j]).column,
                m.slots[j].index,
            ) == Some(j),
        forall|c: usize, i: usize|
            c < m.columns.len() && i >= spec_slot_count(m, c as int) ==> #[trigger] spec_slot_position(
                m,
                c,
                i,
            ) is None,
{
    assert forall|j: int| 0 <= j < m.slots.len() implies spec_slot_position(
        m,
        (#[trigger] m.slots[j]).column,
        m.slots[j].index,
    ) == Some(j) by {
        lemma_slot_column_from_start(m, j);
    }
    assert forall|c: usize, i: usize|
        c < m.columns.len() && i >= spec_slot_count(m, c as int) implies #[trigger] spec_slot_position(
        m,
        c,
        i,
    ) is None by {
        let j = m.columns[c as int].2 + i;
        if j < m.slots.len() {
            let found = lemma_slot_column_from_start(m, j);
            if found < c {
                lemma_firsts_rise(m, found, c as int);
            }
            assert(found != c);
        }
    }
}

proof fn lemma_first_slot_past_props(slots: Seq<SlotSourceView>, offset: usize, k: int, end: int)
    requires
        0 <= k <= end <= slots.len(),
    ensures
        k <= first_slot_past(slots, offset, k, end) <= end,
        forall|i: int| k <= i < first_slot_past(slots, offset, k, end) ==> #[trigger] slots[i].end <= offset,
        first_slot_past(slots, offset, k, end) < end ==> slots[first_slot_past(slots, offset, k, end)].end
            > offset,
    decreases end - k,
{
    if k < end && slots[k].end <= offset {
        lemma_first_slot_past_props(slots, offset, k + 1, end);
    }
}

/// A slot ends no later than the next one starts.
proof fn lemma_slot_then_next(m: SourceMapView, i: int)
    requires
        map_wf(m),
        ordered_map(m),
        0 <= i && i + 1 < m.slots.len(),
    ensures
        m.slots[i].end <= m.slots[i + 1].start,
{
    let total = m.slots.len() as int;
    let c = lemma_slot_column_from_start(m, i);
    let d = lemma_slot_column_from_start(m, i + 1);
    if i + 1 < next_first(m.columns, c, total) {
        lemma_om_next(m, c, i);
    } else {
        lemma_column_facts(m, c);
        assert(i + 1 == next_first(m.columns, c, total));
        assert(m.slots[i].end == m.columns[c].1);
        if d < c {
            lemma_firsts_rise(m, d, c);
        }
        assert(d > c);
        lemma_firsts_rise(m, c, d);
        assert(m.columns[d].2 == i + 1);
        lemma_om_column(m, d);
        lemma_om_columns(m, c, d);
    }
}

proof fn lemma_all_slots_in_order(m: SourceMapView, k: int, j: int)
    requires
        map_wf(m),
        ordered_map(m),
        0 <= k < j < m.slots.len(),
    ensures
        m.slots[k].end <= m.slots[j].start,
    decreases j - k,
{
    lemma_slot_then_next(m, k);
    if k + 1 < j {
        lemma_all_slots_in_order(m, k + 1, j);
        lemma_om_slot(m, k + 1);
    }
}

/// `slot_at` finds exactly the slot whose range holds the offset: it finds one only when the
/// offset lies in that slot's range, and it finds every slot at each offset its range holds.
pub proof fn slot_at_finds_the_slot_holding_an_offset(m: SourceMapView, offset: usize)
    requires
        map_wf(m),
        ordered_map(m),
    ensures
        spec_slot_at(m, offset) matches Some(j) ==> 0 <= j < m.slots.len() && m.slots[j].start
            <= offset < m.slots[j].end,
        forall|j: int|
            0 <= j < m.slots.len() && (#[trigger] m.slots[j]).start <= offset < m.slots[j].end
                ==> spec_slot_at(m, offset) == Some(j),
{
    let total = m.slots.len() as int;
    lemma_first_slot_past_props(m.slots, offset, 0, total);
    let k = first_slot_past(m.slots, offset, 0, total);
    assert forall|j: int|
        0 <= j < m.slots.len() && (#[trigger] m.slots[j]).start <= offset < m.slots[j].end implies spec_slot_at(
        m,
        offset,
    ) == Some(j) by {
        assert(k <= j);
        if k < j {
            lemma_all_slots_in_order(m, k, j);
        }
    }
}

// ---------------------------------------------------------------------------------------------
// Every boundary has a caret.
// ---------------------------------------------------------------------------------------------

/// The order a map of a text keeps: columns follow one another with a line break between them,
/// each column's slots run from its start one after another, and each slot's grapheme
/// boundaries start at its start, rise, and stay below its end until the last.
#[verifier::opaque]
pub open spec fn ordered_map(m: SourceMapView) -> bool {
    let n = m.columns.len();
    let total = m.slots.len() as int;
    &&& n > 0 ==> m.columns[0].2 == 0
    &&& n == 0 ==> total == 0
    &&& forall|c1: int, c2: int|
        #![trigger m.columns[c1], m.columns[c2]]
        0 <= c1 < c2 < n ==> m.columns[c1].1 < m.columns[c2].0
    &&& forall|c: int| 0 <= c < n ==> (#[trigger] m.columns[c]).0 <= m.columns[c].1
    &&& forall|c: int|
        0 <= c < n && m.columns[c].2 < next_first(m.columns, c, total) ==> m.slots[(
        #[trigger] m.columns[c]).2 as int].start == m.columns[c].0
    &&& forall|c: int, i: int|
        #![trigger m.columns[c], m.slots[i]]
        0 <= c < n && m.columns[c].2 <= i && i + 1 < next_first(m.columns, c, total)
            ==> m.slots[i].end == m.slots[i + 1].start
    &&& forall|j: int|
        0 <= j < total ==> {
            let s = #[trigger] m.slots[j];
            &&& s.start <= s.end
            &&& s.boundaries.len() >= 1
            &&& s.boundaries[0] == s.start
            &&& forall|g: int| 0 <= g < s.boundaries.len() ==> s.start <= #[trigger] s.boundaries[g]
            &&& forall|g: int| 0 <= g < s.boundaries.len() - 1 ==> #[trigger] s.boundaries[g] < s.end
            &&& forall|g1: int, g2: int|
                #![trigger s.boundaries[g1], s.boundaries[g2]]
                0 <= g1 < g2 < s.boundaries.len() ==> s.boundaries[g1] < s.boundaries[g2]
        }
}

proof fn lemma_om_columns(m: SourceMapView, c1: int, c2: int)
    requires
        ordered_map(m),
        0 <= c1 < c2 < m.columns.len(),
    ensures
        m.columns[c1].1 < m.columns[c2].0,
{
    reveal(ordered_map);
}

proof fn lemma_om_column(m: SourceMapView, c: int)
    requires
        ordered_map(m),
        0 <= c < m.columns.len(),
    ensures
        m.columns[c].0 <= m.columns[c].1,
        m.columns[c].2 < next_first(m.columns, c, m.slots.len() as int) ==> m.slots[m.columns[c].2 as int].start
            == m.columns[c].0,
        m.columns[0].2 == 0,
{
    reveal(ordered_map);
}

proof fn lemma_om_next(m: SourceMapView, c: int, i: int)
    requires
        ordered_map(m),
        0 <= c < m.columns.len(),
        m.columns[c].2 <= i,
        i + 1 < next_first(m.columns, c, m.slots.len() as int),
    ensures
        m.slots[i].end == m.slots[i + 1].start,
{
    reveal(ordered_map);
}

proof fn lemma_om_slot(m: SourceMapView, j: int)
    requires
        ordered_map(m),
        0 <= j < m.slots.len(),
    ensures
        m.slots[j].start <= m.slots[j].end,
        m.slots[j].boundaries.len() >= 1,
        m.slots[j].boundaries[0] == m.slots[j].start,
        forall|g: int|
            0 <= g < m.slots[j].boundaries.len() ==> m.slots[j].start <= #[trigger] m.slots[j].boundaries[g],
        forall|g: int|
            0 <= g < m.slots[j].boundaries.len() - 1 ==> #[trigger] m.slots[j].boundaries[g]
                < m.slots[j].end,
        forall|g1: int, g2: int|
            #![trigger m.slots[j].boundaries[g1], m.slots[j].boundaries[g2]]
            0 <= g1 < g2 < m.slots[j].boundaries.len() ==> m.slots[j].boundaries[g1]
                < m.slots[j].boundaries[g2],
{
    reveal(ordered_map);
}

proof fn lemma_first_column_reaching_is(cols: Seq<(usize, usize, usize)>, b: usize, k: int, c: int)
    requires
        0 <= k <= c < cols.len(),
        forall|c1: int| k <= c1 < c ==> (#[trigger] cols[c1]).1 < b,
        cols[c].1 >= b,
    ensures
        first_column_reaching(cols, b, k) == c,
    decreases c - k,
{
    if k < c {
        lemma_first_column_reaching_is(cols, b, k + 1, c);
    }
}

proof fn lemma_first_slot_past_is(slots: Seq<SlotSourceView>, b: usize, k: int, j: int, end: int)
    requires
        0 <= k <= j < end <= slots.len(),
        forall|i: int| k <= i < j ==> (#[trigger] slots[i]).end <= b,
        slots[j].end > b,
    ensures
        first_slot_past(slots, b, k, end) == j,
    decreases j - k,
{
    if k < j {
        lemma_first_slot_past_is(slots, b, k + 1, j, end);
    }
}

proof fn lemma_first_slot_past_facts(slots: Seq<SlotSourceView>, b: usize, k: int, end: int)
    requires
        0 <= k < end <= slots.len(),
        slots[end - 1].end > b,
    ensures
        k <= first_slot_past(slots, b, k, end) < end,
        slots[first_slot_past(slots, b, k, end)].end > b,
        forall|i: int| k <= i < first_slot_past(slots, b, k, end) ==> (#[trigger] slots[i]).end <= b,
    decreases end - k,
{
    if slots[k].end <= b {
        lemma_first_slot_past_facts(slots, b, k + 1, end);
    }
}

proof fn lemma_position_of_found(bs: Seq<usize>, b: usize, k: int, g: int)
    requires
        0 <= k <= g < bs.len(),
        bs[g] == b,
    ensures
        position_of(bs, b, k) is Some,
    decreases g - k,
{
    if bs[k] != b {
        lemma_position_of_found(bs, b, k + 1, g);
    }
}

/// Within a column, an earlier slot ends no later than a later one starts.
proof fn lemma_slots_in_order(m: SourceMapView, c: int, i1: int, i2: int)
    requires
        map_wf(m),
        ordered_map(m),
        0 <= c < m.columns.len(),
        m.columns[c].2 <= i1 < i2 < next_first(m.columns, c, m.slots.len() as int),
    ensures
        m.slots[i1].end <= m.slots[i2].start,
    decreases i2 - i1,
{
    lemma_column_facts(m, c);
    lemma_om_next(m, c, i1);
    if i1 + 1 < i2 {
        lemma_slots_in_order(m, c, i1 + 1, i2);
        lemma_om_slot(m, i1 + 1);
    }
}

/// A byte of a column, short of its end, at which some slot of the column starts has a caret.
proof fn lemma_caret_at_slot_start(m: SourceMapView, c: int, i: int)
    requires
        map_wf(m),
        ordered_map(m),
        0 <= c < m.columns.len(),
        m.columns[c].2 <= i < next_first(m.columns, c, m.slots.len() as int),
        m.slots[i].start < m.columns[c].1,
    ensures
        spec_caret(m, m.slots[i].start) is Some,
{
    let b = m.slots[i].start;
    let cols = m.columns;
    let total = m.slots.len() as int;
    let first = cols[c].2 as int;
    let nf = next_first(cols, c, total);
    lemma_column_facts(m, c);
    lemma_slot_in_column(m, c, i);
    lemma_om_column(m, c);
    assert(b >= cols[c].0) by {
        if i > first {
            lemma_slots_in_order(m, c, first, i);
            lemma_om_slot(m, first);
        }
    }
    assert forall|c1: int| 0 <= c1 < c implies (#[trigger] cols[c1]).1 < b by {
        lemma_om_columns(m, c1, c);
    }
    lemma_first_column_reaching_is(cols, b, 0, c);
    let k = first_slot_past(m.slots, b, first, nf);
    lemma_first_slot_past_facts(m.slots, b, first, nf);
    lemma_slot_in_column(m, c, k);
    if k <= i {
        if k < i {
            lemma_slots_in_order(m, c, k, i);
            lemma_om_slot(m, k);
        }
        assert(k == i);
    } else {
        lemma_slot_in_column(m, c, k - 1);
        lemma_om_slot(m, i);
        if i < k - 1 {
            lemma_slots_in_order(m, c, i, k - 1);
            lemma_om_slot(m, k - 1);
        }
        assert(m.slots[k - 1].end == b);
        lemma_om_next(m, c, k - 1);
    }
    lemma_om_slot(m, k);
    assert(m.slots[k].boundaries[0] == b);
    lemma_position_of_found(m.slots[k].boundaries, b, 0, 0);
}

/// Every grapheme boundary of every slot has a caret.
proof fn lemma_caret_at_boundary(m: SourceMapView, j: int, g: int)
    requires
        map_wf(m),
        ordered_map(m),
        0 <= j < m.slots.len(),
        0 <= g < m.slots[j].boundaries.len(),
    ensures
        spec_caret(m, m.slots[j].boundaries[g]) is Some,
{
    let cols = m.columns;
    let total = m.slots.len() as int;
    let c = m.slots[j].column as int;
    let b = m.slots[j].boundaries[g];
    lemma_slot_owner(m, j);
    let first = cols[c].2 as int;
    let nf = next_first(cols, c, total);
    lemma_column_facts(m, c);
    lemma_slot_in_column(m, c, j);
    lemma_om_column(m, c);
    lemma_om_slot(m, j);
    let s = m.slots[j];
    if g < s.boundaries.len() - 1 {
        assert(s.boundaries[g] < s.end);
        assert(b >= s.start);
        assert(s.end <= cols[c].1) by {
            if j < nf - 1 {
                lemma_slots_in_order(m, c, j, nf - 1);
                lemma_slot_in_column(m, c, nf - 1);
                lemma_om_slot(m, nf - 1);
            }
        }
        assert(b >= cols[c].0) by {
            if j > first {
                lemma_slots_in_order(m, c, first, j);
                lemma_om_slot(m, first);
            }
        }
        assert forall|c1: int| 0 <= c1 < c implies (#[trigger] cols[c1]).1 < b by {
            lemma_om_columns(m, c1, c);
        }
        lemma_first_column_reaching_is(cols, b, 0, c);
        assert forall|i: int| first <= i < j implies (#[trigger] m.slots[i]).end <= b by {
            lemma_slots_in_order(m, c, i, j);
        }
        lemma_first_slot_past_is(m.slots, b, first, j, nf);
        lemma_position_of_found(s.boundaries, b, 0, g);
        assert(first + spec_slot_count(m, c) == nf);
        assert(first_column_reaching(cols, b, 0) == c);
        assert(b < cols[c].1);
        assert(b != cols[c].1);
        assert(first_slot_past(m.slots, b, first, first + spec_slot_count(m, c)) == j);
    } else {
        assert(b == s.end);
        if j + 1 < nf {
            lemma_om_next(m, c, j);
            lemma_slot_in_column(m, c, j + 1);
            assert(s.end <= cols[c].1) by {
                lemma_slots_in_order(m, c, j, nf - 1);
                lemma_slot_in_column(m, c, nf - 1);
                lemma_om_slot(m, nf - 1);
            }
            if b < cols[c].1 {
                lemma_caret_at_slot_start(m, c, j + 1);
            } else {
                lemma_caret_at_column_end(m, c);
            }
        } else {
            assert(b == cols[c].1);
            lemma_caret_at_column_end(m, c);
        }
    }
}


proof fn lemma_position_of_exact(bs: Seq<usize>, b: usize, k: int, g: int)
    requires
        0 <= k <= g < bs.len(),
        bs[g] == b,
        forall|h: int| k <= h < g ==> #[trigger] bs[h] != b,
    ensures
        position_of(bs, b, k) == Some(g),
    decreases g - k,
{
    if k < g {
        lemma_position_of_exact(bs, b, k + 1, g);
    }
}

/// The caret at a boundary of a slot that is not its end is that boundary's own caret.
proof fn lemma_caret_at_boundary_is(m: SourceMapView, j: int, g: int)
    requires
        map_wf(m),
        ordered_map(m),
        0 <= j < m.slots.len(),
        0 <= g < m.slots[j].boundaries.len() - 1,
    ensures
        spec_caret(m, m.slots[j].boundaries[g]) == Some(
            Caret { column: m.slots[j].column, index: m.slots[j].index, grapheme: g as usize },
        ),
{
    let cols = m.columns;
    let total = m.slots.len() as int;
    let c = m.slots[j].column as int;
    let b = m.slots[j].boundaries[g];
    lemma_slot_owner(m, j);
    let first = cols[c].2 as int;
    let nf = next_first(cols, c, total);
    lemma_column_facts(m, c);
    lemma_slot_in_column(m, c, j);
    lemma_om_column(m, c);
    lemma_om_slot(m, j);
    let s = m.slots[j];
    assert(s.boundaries[g] < s.end);
    assert(s.end <= cols[c].1) by {
        if j < nf - 1 {
            lemma_slots_in_order(m, c, j, nf - 1);
            lemma_slot_in_column(m, c, nf - 1);
            lemma_om_slot(m, nf - 1);
        }
    }
    assert(b >= cols[c].0) by {
        if j > first {
            lemma_slots_in_order(m, c, first, j);
            lemma_om_slot(m, first);
        }
    }
    assert forall|c1: int| 0 <= c1 < c implies (#[trigger] cols[c1]).1 < b by {
        lemma_om_columns(m, c1, c);
    }
    lemma_first_column_reaching_is(cols, b, 0, c);
    assert forall|i: int| first <= i < j implies (#[trigger] m.slots[i]).end <= b by {
        lemma_slots_in_order(m, c, i, j);
    }
    lemma_first_slot_past_is(m.slots, b, first, j, nf);
    assert forall|h: int| 0 <= h < g implies #[trigger] s.boundaries[h] != b by {
        assert(s.boundaries[h] < s.boundaries[g]);
    }
    lemma_position_of_exact(s.boundaries, b, 0, g);
    assert(first + spec_slot_count(m, c) == nf);
    assert(first_column_reaching(cols, b, 0) == c);
    assert(b != cols[c].1);
}

/// The offset of a caret leads back to that caret: every caret `offset` accepts is the one
/// `caret` finds at the offset it gives.
pub proof fn a_caret_leads_to_its_offset_and_back(m: SourceMapView, c: Caret)
    requires
        map_wf(m),
        ordered_map(m),
        spec_offset(m, c) is Some,
    ensures
        spec_caret(m, spec_offset(m, c)->0) == Some(c),
{
    let cols = m.columns;
    let col = c.column as int;
    let total = m.slots.len() as int;
    lemma_column_facts(m, col);
    lemma_om_column(m, col);
    let o = spec_offset(m, c)->0;
    if spec_slot_count(m, col) <= 0 {
        assert(o == cols[col].0);
        assert forall|c1: int| 0 <= c1 < col implies (#[trigger] cols[c1]).1 < o by {
            lemma_om_columns(m, c1, col);
        }
        lemma_first_column_reaching_is(cols, o, 0, col);
    } else {
        let j = spec_slot_position(m, c.column, c.index)->0;
        let first = cols[col].2 as int;
        assert(j == first + c.index && m.slots[j].column == c.column);
        lemma_slot_owner(m, j);
        lemma_slot_in_column(m, col, j);
        let s = m.slots[j];
        let g = c.grapheme as int;
        if g + 1 < s.boundaries.len() {
            lemma_caret_at_boundary_is(m, j, g);
        } else {
            let n = spec_slot_count(m, col);
            assert(c.index + 1 == n);
            assert(j == first + n - 1);
            assert(s.boundaries[g] == s.boundaries.last());
            assert(o == cols[col].1);
            assert forall|c1: int| 0 <= c1 < col implies (#[trigger] cols[c1]).1 < o by {
                lemma_om_columns(m, c1, col);
            }
            lemma_first_column_reaching_is(cols, o, 0, col);
        }
    }
}

proof fn lemma_slot_owner_from(m: SourceMapView, j: int, c: int)
    requires
        map_wf(m),
        0 <= c < m.columns.len(),
        m.columns[c].2 <= j < m.slots.len(),
    ensures
        0 <= m.slots[j].column < m.columns.len(),
        m.columns[m.slots[j].column as int].2 <= j < next_first(
            m.columns,
            m.slots[j].column as int,
            m.slots.len() as int,
        ),
    decreases m.columns.len() - c,
{
    if j < next_first(m.columns, c, m.slots.len() as int) {
        lemma_slot_in_column(m, c, j);
    } else {
        lemma_slot_owner_from(m, j, c + 1);
    }
}

proof fn lemma_slot_owner(m: SourceMapView, j: int)
    requires
        map_wf(m),
        ordered_map(m),
        0 <= j < m.slots.len(),
    ensures
        0 <= m.slots[j].column < m.columns.len(),
        m.columns[m.slots[j].column as int].2 <= j < next_first(
            m.columns,
            m.slots[j].column as int,
            m.slots.len() as int,
        ),
{
    reveal(ordered_map);
    lemma_slot_owner_from(m, j, 0);
}

proof fn lemma_caret_at_column_end(m: SourceMapView, c: int)
    requires
        map_wf(m),
        ordered_map(m),
        0 <= c < m.columns.len(),
    ensures
        spec_caret(m, m.columns[c].1) is Some,
{
    let cols = m.columns;
    let b = cols[c].1;
    lemma_column_facts(m, c);
    assert forall|c1: int| 0 <= c1 < c implies (#[trigger] cols[c1]).1 < b by {
        lemma_om_columns(m, c1, c);
        lemma_om_column(m, c);
    }
    lemma_om_column(m, c);
    lemma_first_column_reaching_is(cols, b, 0, c);
    if spec_slot_count(m, c) == 0 {
        reveal(map_wf);
        assert(cols[c].0 == cols[c].1);
    }
}

proof fn lemma_caret_at_column_start(m: SourceMapView, c: int)
    requires
        map_wf(m),
        ordered_map(m),
        0 <= c < m.columns.len(),
    ensures
        spec_caret(m, m.columns[c].0) is Some,
{
    let cols = m.columns;
    let b = cols[c].0;
    lemma_column_facts(m, c);
    assert forall|c1: int| 0 <= c1 < c implies (#[trigger] cols[c1]).1 < b by {
        lemma_om_columns(m, c1, c);
        lemma_om_column(m, c);
    }
    lemma_om_column(m, c);
    lemma_first_column_reaching_is(cols, b, 0, c);
    if spec_slot_count(m, c) > 0 && b < cols[c].1 {
        let first = cols[c].2 as int;
        assert(m.slots[first].start == b);
        lemma_caret_at_slot_start(m, c, first);
    }
}

proof fn lemma_no_caret_in_break(m: SourceMapView, c: int, b: usize)
    requires
        map_wf(m),
        ordered_map(m),
        0 <= c,
        c + 1 < m.columns.len(),
        m.columns[c].1 < b < m.columns[c + 1].0,
    ensures
        spec_caret(m, b) is None,
{
    let cols = m.columns;
    assert forall|c1: int| 0 <= c1 < c + 1 implies (#[trigger] cols[c1]).1 < b by {
        if c1 < c {
            lemma_om_columns(m, c1, c);
            lemma_om_column(m, c);
        }
    }
    lemma_om_column(m, c + 1);
    lemma_first_column_reaching_is(cols, b, 0, c + 1);
}

/// Every grapheme boundary of every slot has a caret, and so do the start and the end of every
/// column; a byte inside the line break between two columns has none.
pub proof fn every_boundary_has_a_caret(m: SourceMapView)
    requires
        map_wf(m),
        ordered_map(m),
    ensures
        forall|j: int, g: int|
            0 <= j < m.slots.len() && 0 <= g < m.slots[j].boundaries.len() ==> spec_caret(
                m,
                #[trigger] m.slots[j].boundaries[g],
            ) is Some,
        forall|c: int|
            0 <= c < m.columns.len() ==> spec_caret(m, (#[trigger] m.columns[c]).0) is Some
                && spec_caret(m, m.columns[c].1) is Some,
        forall|c: int, b: usize|
            #![trigger m.columns[c], spec_caret(m, b)]
            0 <= c && c + 1 < m.columns.len() && m.columns[c].1 < b < m.columns[c + 1].0
                ==> spec_caret(m, b) is None,
{
    assert forall|j: int, g: int|
        0 <= j < m.slots.len() && 0 <= g < m.slots[j].boundaries.len() implies spec_caret(
        m,
        #[trigger] m.slots[j].boundaries[g],
    ) is Some by {
        lemma_caret_at_boundary(m, j, g);
    }
    assert forall|c: int| 0 <= c < m.columns.len() implies spec_caret(
        m,
        (#[trigger] m.columns[c]).0,
    ) is Some && spec_caret(m, m.columns[c].1) is Some by {
        lemma_caret_at_column_start(m, c);
        lemma_caret_at_column_end(m, c);
    }
    assert forall|c: int, b: usize|
        #![trigger m.columns[c], spec_caret(m, b)]
        0 <= c && c + 1 < m.columns.len() && m.columns[c].1 < b < m.columns[c + 1].0 implies spec_caret(
        m,
        b,
    ) is None by {
        lemma_no_caret_in_break(m, c, b);
    }
}


// ---------------------------------------------------------------------------------------------
// The order of a walk, and of the map it describes.
// ---------------------------------------------------------------------------------------------

pub open spec fn span_end(s: SlotSpan) -> nat {
    s.start + s.len
}

/// The spans of a column walk follow one another from `pos`, within the text.
pub open spec fn column_spans_shape(
    input: Seq<char>,
    pos: nat,
    col: nat,
    n: nat,
    spans: Seq<SlotSpan>,
) -> bool {
    &&& spans.len() == n
    &&& forall|i: int|
        0 <= i < spans.len() ==> (#[trigger] spans[i]).column == col && spans[i].index == i && pos
            <= spans[i].start && span_end(spans[i]) <= input.len()
    &&& spans.len() > 0 ==> spans[0].start == pos
    &&& forall|i: int| 0 <= i < spans.len() - 1 ==> span_end(#[trigger] spans[i]) == spans[i + 1].start
    &&& pos <= spans_end(pos, spans) <= input.len()
    &&& spans.len() > 0 ==> spans_end(pos, spans) == span_end(spans.last())
}

proof fn lemma_slot_match_fits(input: Seq<char>, p: int, slot: (SlotKind, Seq<char>))
    requires
        0 <= p <= input.len(),
        slot_match(input, p, slot) is Some,
    ensures
        p + slot_match(input, p, slot)->Some_0.0 <= input.len(),
{
}

proof fn lemma_walk_column_shape(input: Seq<char>, pos: nat, col: nat, slots: Seq<(SlotKind, Seq<char>)>)
    requires
        pos <= input.len(),
    ensures
        walk_column(input, pos, col, slots) matches Ok(spans) ==> column_spans_shape(
            input,
            pos,
            col,
            slots.len(),
            spans,
        ),
    decreases slots.len(),
{
    if slots.len() > 0 {
        lemma_walk_column_shape(input, pos, col, slots.drop_last());
        if let Ok(prev) = walk_column(input, pos, col, slots.drop_last()) {
            let p = spans_end(pos, prev);
            if let Some((len, ins)) = slot_match(input, p as int, slots.last()) {
                lemma_slot_match_fits(input, p as int, slots.last());
                let span = SlotSpan {
                    column: col,
                    index: (slots.len() - 1) as nat,
                    start: p,
                    len,
                    inserted: ins,
                };
                let spans = prev.push(span);
                assert(walk_column(input, pos, col, slots) == Ok::<Seq<SlotSpan>, (nat, nat)>(spans));
                assert forall|i: int| 0 <= i < spans.len() implies (#[trigger] spans[i]).column == col
                    && spans[i].index == i && pos <= spans[i].start && span_end(spans[i])
                    <= input.len() by {
                    if i < prev.len() {
                        assert(spans[i] == prev[i]);
                    }
                }
                assert forall|i: int| 0 <= i < spans.len() - 1 implies span_end(#[trigger] spans[i])
                    == spans[i + 1].start by {
                    assert(spans[i] == prev[i]);
                    if i + 1 < prev.len() {
                        assert(spans[i + 1] == prev[i + 1]);
                    } else {
                        assert(prev.len() > 0);
                        assert(span_end(prev.last()) == p);
                    }
                }
                if prev.len() > 0 {
                    assert(spans[0] == prev[0]);
                }
            }
        }
    }
}


/// Where the spans of column `c` of a walk end: where the next column's begin.
pub open spec fn wnext(w: Walk, c: int) -> int {
    if c + 1 < w.columns.len() {
        w.columns[c + 1].2 as int
    } else {
        w.spans.len() as int
    }
}

/// The order of a walk: columns follow one another with a line break between them, and the
/// spans of each column run one after another from its start to its end.
#[verifier::opaque]
pub open spec fn walk_shape(input: Seq<char>, w: Walk) -> bool {
    let n = w.columns.len();
    &&& n > 0 ==> w.columns[0].2 == 0
    &&& n == 0 ==> w.spans.len() == 0 && w.pos == 0
    &&& n > 0 ==> w.pos == w.columns[n - 1].1
    &&& forall|c: int|
        0 <= c < n ==> (#[trigger] w.columns[c]).0 <= w.columns[c].1 <= input.len() && w.columns[c].2
            <= wnext(w, c) <= w.spans.len()
    &&& forall|c1: int, c2: int|
        #![trigger w.columns[c1], w.columns[c2]]
        0 <= c1 < c2 < n ==> w.columns[c1].1 < w.columns[c2].0
    &&& forall|c: int, i: int|
        #![trigger w.columns[c], w.spans[i]]
        0 <= c < n && w.columns[c].2 <= i < wnext(w, c) ==> w.spans[i].column == c
            && w.spans[i].index == i - w.columns[c].2 && w.columns[c].0 <= w.spans[i].start
            && span_end(w.spans[i]) <= w.columns[c].1
    &&& forall|c: int|
        0 <= c < n && w.columns[c].2 < wnext(w, c) ==> w.spans[(#[trigger] w.columns[c]).2 as int].start
            == w.columns[c].0 && span_end(w.spans[wnext(w, c) - 1]) == w.columns[c].1
    &&& forall|c: int|
        0 <= c < n && w.columns[c].2 == wnext(w, c) ==> (#[trigger] w.columns[c]).0 == w.columns[c].1
    &&& forall|c: int, i: int|
        #![trigger w.columns[c], w.spans[i]]
        0 <= c < n && w.columns[c].2 <= i && i + 1 < wnext(w, c) ==> span_end(w.spans[i])
            == w.spans[i + 1].start
}

proof fn lemma_walk_shape_push(input: Seq<char>, pw: Walk, start: nat, spans: Seq<SlotSpan>, k: nat)
    requires
        walk_shape(input, pw),
        column_spans_shape(input, start, pw.columns.len(), k, spans),
        pw.columns.len() == 0 ==> start == 0,
        pw.columns.len() > 0 ==> pw.pos < start,
    ensures
        walk_shape(
            input,
            Walk {
                spans: pw.spans + spans,
                columns: pw.columns.push((start, spans_end(start, spans), pw.spans.len())),
                pos: spans_end(start, spans),
            },
        ),
{
    reveal(walk_shape);
    let w = Walk {
        spans: pw.spans + spans,
        columns: pw.columns.push((start, spans_end(start, spans), pw.spans.len())),
        pos: spans_end(start, spans),
    };
    let n = w.columns.len();
    let c = pw.columns.len() as int;
    let old_n = pw.spans.len() as int;
    assert forall|d: int| 0 <= d < c implies #[trigger] w.columns[d] == pw.columns[d] by {}
    assert forall|d: int| 0 <= d < c implies #[trigger] wnext(w, d) == wnext(pw, d) by {
        assert(w.columns[d] == pw.columns[d]);
        if d + 1 < c {
            assert(w.columns[d + 1] == pw.columns[d + 1]);
        }
    }
    assert forall|i: int| 0 <= i < old_n implies #[trigger] w.spans[i] == pw.spans[i] by {}
    assert forall|i: int| old_n <= i < w.spans.len() implies #[trigger] w.spans[i] == spans[i - old_n] by {}
    assert(wnext(w, c) == w.spans.len());
    // The old columns end before the new one starts.
    assert forall|d: int| 0 <= d < c implies (#[trigger] pw.columns[d]).1 < start by {
        if d < c - 1 {
            assert(pw.columns[d].1 < pw.columns[c - 1].0);
            assert(pw.columns[c - 1].0 <= pw.columns[c - 1].1);
        }
    }
    assert forall|d: int| 0 <= d < n implies (#[trigger] w.columns[d]).0 <= w.columns[d].1 <= input.len()
        && w.columns[d].2 <= wnext(w, d) <= w.spans.len() by {
        if d < c {
            assert(pw.columns[d].0 <= pw.columns[d].1 <= input.len());
            assert(pw.columns[d].2 <= wnext(pw, d) <= pw.spans.len());
        }
    }
    assert forall|c1: int, c2: int|
        #![trigger w.columns[c1], w.columns[c2]]
        0 <= c1 < c2 < n implies w.columns[c1].1 < w.columns[c2].0 by {
        if c2 < c {
            assert(pw.columns[c1].1 < pw.columns[c2].0);
        } else {
            assert(pw.columns[c1].1 < start);
        }
    }
    assert forall|d: int, i: int|
        #![trigger w.columns[d], w.spans[i]]
        0 <= d < n && w.columns[d].2 <= i < wnext(w, d) implies w.spans[i].column == d
            && w.spans[i].index == i - w.columns[d].2 && w.columns[d].0 <= w.spans[i].start
            && span_end(w.spans[i]) <= w.columns[d].1 by {
        if d < c {
            assert(pw.columns[d].2 <= i < wnext(pw, d));
            assert(wnext(pw, d) <= old_n);
            assert(w.spans[i] == pw.spans[i]);
            assert(pw.spans[i].column == d);
        } else {
            assert(w.spans[i] == spans[i - old_n]);
            if spans.len() > 0 {
                assert(span_end(spans[i - old_n]) <= span_end(spans.last())) by {
                    lemma_spans_end_mono(spans, i - old_n);
                }
            }
        }
    }
    assert forall|d: int|
        0 <= d < n && w.columns[d].2 < wnext(w, d) implies w.spans[(#[trigger] w.columns[d]).2 as int].start
        == w.columns[d].0 && span_end(w.spans[wnext(w, d) - 1]) == w.columns[d].1 by {
        if d < c {
            assert(pw.columns[d].2 < wnext(pw, d));
            assert(wnext(pw, d) <= old_n);
            assert(w.spans[pw.columns[d].2 as int] == pw.spans[pw.columns[d].2 as int]);
            assert(w.spans[wnext(pw, d) - 1] == pw.spans[wnext(pw, d) - 1]);
        } else {
            assert(w.spans[old_n] == spans[0]);
            assert(w.spans[w.spans.len() - 1] == spans.last());
        }
    }
    assert forall|d: int|
        0 <= d < n && w.columns[d].2 == wnext(w, d) implies (#[trigger] w.columns[d]).0 == w.columns[d].1 by {
        if d < c {
            assert(pw.columns[d].2 == wnext(pw, d));
        }
    }
    assert forall|d: int, i: int|
        #![trigger w.columns[d], w.spans[i]]
        0 <= d < n && w.columns[d].2 <= i && i + 1 < wnext(w, d) implies span_end(w.spans[i])
        == w.spans[i + 1].start by {
        if d < c {
            assert(wnext(pw, d) <= old_n);
            assert(w.spans[i] == pw.spans[i]);
            assert(w.spans[i + 1] == pw.spans[i + 1]);
            assert(span_end(pw.spans[i]) == pw.spans[i + 1].start);
        } else {
            assert(w.spans[i] == spans[i - old_n]);
            assert(w.spans[i + 1] == spans[i + 1 - old_n]);
        }
    }
}

proof fn lemma_spans_end_mono(spans: Seq<SlotSpan>, i: int)
    requires
        0 <= i < spans.len(),
        forall|k: int| 0 <= k < spans.len() - 1 ==> span_end(#[trigger] spans[k]) == spans[k + 1].start,
    ensures
        span_end(spans[i]) <= span_end(spans.last()),
    decreases spans.len() - i,
{
    if i < spans.len() - 1 {
        lemma_spans_end_mono(spans, i + 1);
    }
}


proof fn lemma_walk_column_len(input: Seq<char>, pos: nat, col: nat, slots: Seq<(SlotKind, Seq<char>)>)
    ensures
        walk_column(input, pos, col, slots) matches Ok(spans) ==> spans.len() == slots.len(),
    decreases slots.len(),
{
    if slots.len() > 0 {
        lemma_walk_column_len(input, pos, col, slots.drop_last());
    }
}

/// A walk has one column per layout column, and as many spans in each as the column has slots.
pub(crate) proof fn lemma_walk_counts(input: Seq<char>, cols: Seq<Seq<(SlotKind, Seq<char>)>>)
    ensures
        walk_layout(input, cols) matches Ok(w) ==> {
            &&& w.columns.len() == cols.len()
            &&& forall|c: int|
                0 <= c < cols.len() ==> wnext(w, c) - (#[trigger] w.columns[c]).2 == cols[c].len()
                    && wnext(w, c) <= w.spans.len()
        },
    decreases cols.len(),
{
    if cols.len() > 0 {
        let p = cols.drop_last();
        lemma_walk_counts(input, p);
        if let Ok(pw) = walk_layout(input, p) {
            let c = (cols.len() - 1) as nat;
            if let Some(start) = column_start(input, pw.pos, c) {
                lemma_walk_column_len(input, start, c, cols.last());
                if let Ok(spans) = walk_column(input, start, c, cols.last()) {
                    let w = walk_layout(input, cols)->Ok_0;
                    assert forall|d: int| 0 <= d < cols.len() implies wnext(w, d) - (
                    #[trigger] w.columns[d]).2 == cols[d].len() && wnext(w, d) <= w.spans.len() by {
                        if d < p.len() {
                            assert(w.columns[d] == pw.columns[d]);
                            assert(cols[d] == p[d]);
                            if d + 1 < p.len() {
                                assert(w.columns[d + 1] == pw.columns[d + 1]);
                            } else {
                                assert(w.columns[d + 1].2 == pw.spans.len());
                            }
                        } else {
                            assert(w.columns[d].2 == pw.spans.len());
                        }
                    }
                }
            }
        }
    }
}

proof fn lemma_walk_layout_shape(input: Seq<char>, cols: Seq<Seq<(SlotKind, Seq<char>)>>)
    ensures
        walk_layout(input, cols) matches Ok(w) ==> walk_shape(input, w) && w.columns.len()
            == cols.len(),
    decreases cols.len(),
{
    if cols.len() == 0 {
        reveal(walk_shape);
    } else {
        lemma_walk_layout_shape(input, cols.drop_last());
        if let Ok(pw) = walk_layout(input, cols.drop_last()) {
            let c = (cols.len() - 1) as nat;
            if let Some(start) = column_start(input, pw.pos, c) {
                assert(pw.pos <= input.len()) by {
                    reveal(walk_shape);
                    if pw.columns.len() > 0 {
                        assert(pw.columns[pw.columns.len() - 1].1 <= input.len());
                    }
                }
                assert(start <= input.len());
                lemma_walk_column_shape(input, start, c, cols.last());
                if let Ok(spans) = walk_column(input, start, c, cols.last()) {
                    assert(pw.columns.len() == 0 ==> start == 0) by {
                        reveal(walk_shape);
                    }
                    lemma_walk_shape_push(input, pw, start, spans, cols.last().len());
                }
            }
        }
    }
}


proof fn lemma_byte_len_positive(s: Seq<char>)
    requires
        s.len() > 0,
    ensures
        byte_len(s) >= 1,
{
    assert(vstd::utf8::encode_utf8(s) == vstd::utf8::encode_scalar(s[0] as u32)
        + vstd::utf8::encode_utf8(s.drop_first()));
}

/// Byte offsets grow with character positions, strictly where characters lie between.
proof fn lemma_offset_mono(input: Seq<char>, p: int, q: int)
    requires
        0 <= p <= q <= input.len(),
    ensures
        offset_of(input, p) <= offset_of(input, q) <= byte_len(input),
        p < q ==> offset_of(input, p) < offset_of(input, q),
{
    assert(input.take(q) =~= input.take(p) + input.subrange(p, q));
    lemma_byte_len_append(input.take(p), input.subrange(p, q));
    if p < q {
        lemma_byte_len_positive(input.subrange(p, q));
    }
    lemma_byte_len_prefix(input, q);
}

/// The grapheme boundaries of a span start at its start and stay below its end until the last.
proof fn lemma_span_boundaries(input: Seq<char>, span: SlotSpan)
    requires
        span_end(span) <= input.len(),
        partitions(grapheme_clusters(span_text(input, span)), span_text(input, span)),
        byte_len(input) <= usize::MAX,
    ensures
        ({
            let bs = span_boundaries(input, span);
            let st = offset_of(input, span.start as int) as usize;
            let en = offset_of(input, span_end(span) as int) as usize;
            &&& bs.len() >= 1
            &&& bs[0] == st
            &&& forall|g: int| 0 <= g < bs.len() ==> st <= #[trigger] bs[g]
            &&& forall|g: int| 0 <= g < bs.len() - 1 ==> #[trigger] bs[g] < en
            &&& forall|g1: int, g2: int|
                #![trigger bs[g1], bs[g2]]
                0 <= g1 < g2 < bs.len() ==> bs[g1] < bs[g2]
        }),
{
    let text = span_text(input, span);
    let cs = grapheme_clusters(text);
    let bs = span_boundaries(input, span);
    let a = offset_of(input, span.start as int);
    let e = offset_of(input, span_end(span) as int);
    assert(input.take(span_end(span) as int) =~= input.take(span.start as int) + text);
    lemma_byte_len_append(input.take(span.start as int), text);
    assert(e == a + byte_len(text));
    lemma_offset_mono(input, span.start as int, span_end(span) as int);
    assert forall|k: int| 0 <= k < cs.len() implies byte_len(concat_all(cs.take(k))) < byte_len(text) by {
        crate::layout::lemma_concat_all_split(cs, k);
        assert(cs.take(k) =~= cs.subrange(0, k));
        let rest = cs.subrange(k, cs.len() as int);
        assert forall|i: int| 0 <= i < rest.len() implies (#[trigger] rest[i]).len() > 0 by {
            assert(rest[i] == cs[k + i]);
        }
        crate::layout::lemma_concat_all_len_positive(rest);
        lemma_byte_len_append(concat_all(cs.subrange(0, k)), concat_all(rest));
        lemma_byte_len_positive(concat_all(rest));
    }
    assert forall|k1: int, k2: int| 0 <= k1 < k2 <= cs.len() implies byte_len(concat_all(#[trigger] cs.take(k1)))
        < byte_len(concat_all(#[trigger] cs.take(k2))) by {
        let t2 = cs.take(k2);
        crate::layout::lemma_concat_all_split(t2, k1);
        assert(t2.subrange(0, k1) =~= cs.take(k1));
        let mid = t2.subrange(k1, k2);
        assert forall|i: int| 0 <= i < mid.len() implies (#[trigger] mid[i]).len() > 0 by {
            assert(mid[i] == cs[k1 + i]);
        }
        crate::layout::lemma_concat_all_len_positive(mid);
        lemma_byte_len_append(concat_all(cs.take(k1)), concat_all(mid));
        lemma_byte_len_positive(concat_all(mid));
    }
    assert forall|k: int| 0 <= k <= cs.len() implies byte_len(concat_all(#[trigger] cs.take(k)))
        <= byte_len(text) by {
        if k < cs.len() {
        } else {
            assert(cs.take(k) =~= cs);
        }
    }
    if cs.len() == 0 {
        assert(text =~= Seq::<char>::empty());
        assert(bs =~= seq![e as usize]);
    } else {
        assert(cs.take(0) =~= Seq::<Seq<char>>::empty());
        assert(byte_len(concat_all(Seq::<Seq<char>>::empty())) == 0) by {
            assert(vstd::utf8::encode_utf8(Seq::<char>::empty()) =~= Seq::<u8>::empty());
        }
    }
}


/// The map a walk describes keeps the walk's order.
proof fn lemma_walk_map_ordered(input: Seq<char>, w: Walk, m: SourceMapView)
    requires
        walk_shape(input, w),
        map_is_walk(m, input, w),
        byte_len(input) <= usize::MAX,
        m.slots.len() <= usize::MAX,
    ensures
        ordered_map(m),
{
    reveal(walk_shape);
    reveal(ordered_map);
    let n = m.columns.len();
    let total = m.slots.len() as int;
    assert forall|c: int| 0 <= c < n implies #[trigger] m.columns[c] == (
        offset_of(input, w.columns[c].0 as int) as usize,
        offset_of(input, w.columns[c].1 as int) as usize,
        w.columns[c].2 as usize,
    ) by {}
    assert forall|c: int| 0 <= c < n implies next_first(m.columns, c, total) == wnext(w, c) by {
        if c + 1 < n {
            assert(m.columns[c + 1].2 == w.columns[c + 1].2 as usize);
            assert(w.columns[c + 1].2 <= wnext(w, c + 1) <= w.spans.len());
        }
    }
    assert forall|c: int| 0 <= c < n implies #[trigger] (m.columns[c].0 as int) == offset_of(
        input,
        w.columns[c].0 as int,
    ) && (m.columns[c].1 as int) == offset_of(input, w.columns[c].1 as int) by {
        assert(w.columns[c].0 <= w.columns[c].1 <= input.len());
        lemma_offset_mono(input, w.columns[c].0 as int, w.columns[c].1 as int);
    }
    assert forall|j: int| 0 <= j < total implies {
        &&& span_end(w.spans[j]) <= input.len()
        &&& (#[trigger] m.slots[j]).start as int == offset_of(input, w.spans[j].start as int)
        &&& m.slots[j].end as int == offset_of(input, span_end(w.spans[j]) as int)
    } by {
        assert(source_is_span(m.slots[j], input, w.spans[j]));
        assert(j < w.spans.len());
        lemma_span_owner(w, input, j);
        lemma_offset_mono(input, w.spans[j].start as int, span_end(w.spans[j]) as int);
    }
    assert(n > 0 ==> m.columns[0].2 == 0);
    assert(n == 0 ==> total == 0);
    assert forall|c1: int, c2: int|
        #![trigger m.columns[c1], m.columns[c2]]
        0 <= c1 < c2 < n implies m.columns[c1].1 < m.columns[c2].0 by {
        assert(w.columns[c1].1 < w.columns[c2].0);
        assert(w.columns[c2].0 <= w.columns[c2].1 <= input.len());
        lemma_offset_mono(input, w.columns[c1].1 as int, w.columns[c2].0 as int);
        assert((m.columns[c1].1 as int) == offset_of(input, w.columns[c1].1 as int));
        assert((m.columns[c2].0 as int) == offset_of(input, w.columns[c2].0 as int));
    }
    assert forall|c: int| 0 <= c < n implies (#[trigger] m.columns[c]).0 <= m.columns[c].1 by {
        lemma_offset_mono(input, w.columns[c].0 as int, w.columns[c].1 as int);
    }
    assert forall|c: int|
        0 <= c < n && m.columns[c].2 < next_first(m.columns, c, total) implies m.slots[(
        #[trigger] m.columns[c]).2 as int].start == m.columns[c].0 by {
        let f = w.columns[c].2 as int;
        assert(f < wnext(w, c));
        assert(w.spans[f].start == w.columns[c].0);
        assert((m.slots[f].start as int) == offset_of(input, w.spans[f].start as int));
    }
    assert forall|c: int, i: int|
        #![trigger m.columns[c], m.slots[i]]
        0 <= c < n && m.columns[c].2 <= i && i + 1 < next_first(m.columns, c, total)
            implies m.slots[i].end == m.slots[i + 1].start by {
        assert(w.columns[c].2 <= i && i + 1 < wnext(w, c));
        assert(span_end(w.spans[i]) == w.spans[i + 1].start);
        assert((m.slots[i].end as int) == offset_of(input, span_end(w.spans[i]) as int));
        assert((m.slots[i + 1].start as int) == offset_of(input, w.spans[i + 1].start as int));
    }
    assert forall|j: int| 0 <= j < total implies {
        let s = #[trigger] m.slots[j];
        &&& s.start <= s.end
        &&& s.boundaries.len() >= 1
        &&& s.boundaries[0] == s.start
        &&& forall|g: int| 0 <= g < s.boundaries.len() ==> s.start <= #[trigger] s.boundaries[g]
        &&& forall|g: int| 0 <= g < s.boundaries.len() - 1 ==> #[trigger] s.boundaries[g] < s.end
        &&& forall|g1: int, g2: int|
            #![trigger s.boundaries[g1], s.boundaries[g2]]
            0 <= g1 < g2 < s.boundaries.len() ==> s.boundaries[g1] < s.boundaries[g2]
    } by {
        let span = w.spans[j];
        assert(source_is_span(m.slots[j], input, span));
        lemma_span_owner(w, input, j);
        lemma_span_boundaries(input, span);
        lemma_offset_mono(input, span.start as int, span_end(span) as int);
    }
}

/// Every span of a walk lies in its column, within the text.
proof fn lemma_span_owner(w: Walk, input: Seq<char>, j: int)
    requires
        walk_shape(input, w),
        0 <= j < w.spans.len(),
    ensures
        span_end(w.spans[j]) <= input.len(),
{
    reveal(walk_shape);
    lemma_span_owner_from(w, input, j, 0);
}

proof fn lemma_span_owner_from(w: Walk, input: Seq<char>, j: int, c: int)
    requires
        walk_shape(input, w),
        0 <= c < w.columns.len(),
        w.columns[c].2 <= j < w.spans.len(),
    ensures
        span_end(w.spans[j]) <= input.len(),
    decreases w.columns.len() - c,
{
    reveal(walk_shape);
    if j < wnext(w, c) {
        assert(span_end(w.spans[j]) <= w.columns[c].1);
    } else {
        lemma_span_owner_from(w, input, j, c + 1);
    }
}

} // verus!
