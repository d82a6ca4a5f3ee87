//! The layout → HTML renderer, and the mode protocol that splits one input into segments.
//!
//! No I/O: strings in, strings out. The slot-to-class mapping and the mode markers are defined
//! here once for every host that produces HTML.

use crate::document::HorizontalKind;
use crate::layout::{
    layout_text, model_of, no_inserted_hyphen, shown_columns, Layout, LayoutConfig, Progression, Slot, SlotKind,
};
use crate::orientation::{prefers_horizontal, spec_measure};
use crate::text::{
    chars_of, concat_all, decimal, grapheme_clusters, graphemes, is_mongolian, is_suffix_separator,
    partitions, push_char, push_decimal, spec_is_mongolian, spec_is_suffix_separator,
    string_views,
};
use vstd::prelude::*;
use vstd::string::StrSliceExecFns;
use vstd::string::StringExecFns;

verus! {

/// Reserved private-use markers that an upstream filter inserts around a segment, so that one
/// input can switch between rule sets mid-stream. A marker means "everything after me is this
/// kind of segment, until the next marker". Authors never type these.
pub const MODE_CODE: char = '\u{E000}';

pub const MODE_PROSE: char = '\u{E001}';

/// Heading levels 1–6 occupy U+E002–U+E007.
pub const MODE_HEADING_BASE: u32 = 0xE002;

pub const MAX_HEADING_LEVEL: u8 = 6;

/// A table segment. Within it, cells are separated by [`CELL_SEP`] and rows by [`ROW_SEP`].
pub const MODE_TABLE: char = '\u{E008}';

pub const CELL_SEP: char = '\u{E009}';

pub const ROW_SEP: char = '\u{E00A}';

/// One list item; each item is a segment of its own, classified on its own.
pub const MODE_LIST: char = '\u{E00B}';

/// One item of a numbered list, which carries its number in its text and gets no bullet.
pub const MODE_LIST_ORDERED: char = '\u{E00C}';

/// The last reserved codepoint; the filter strips this whole range from author text.
pub const RESERVED_END: u32 = 0xE00C;

/// The Latin slot caps, published to CSS as custom properties on the root element.
pub const PROSE_LATIN_CAP: usize = 12;

pub const CODE_LATIN_CAP: usize = 24;

/// `level` clamped to 1–6.
pub open spec fn clamped_level(level: u8) -> u8 {
    if level < 1 {
        1
    } else if level > MAX_HEADING_LEVEL {
        MAX_HEADING_LEVEL
    } else {
        level
    }
}

/// The marker introducing a heading of `level` (clamped to 1–6).
pub fn heading_marker(level: u8) -> (marker: char)
    ensures
        marker as u32 == MODE_HEADING_BASE + clamped_level(level) - 1,
{
    if level <= 1 {
        '\u{E002}'
    } else if level == 2 {
        '\u{E003}'
    } else if level == 3 {
        '\u{E004}'
    } else if level == 4 {
        '\u{E005}'
    } else if level == 5 {
        '\u{E006}'
    } else {
        '\u{E007}'
    }
}

pub open spec fn spec_prose_config(progression: Progression) -> LayoutConfig {
    LayoutConfig { max_latin_word_width: PROSE_LATIN_CAP, preserve_spaces: false, progression }
}

pub open spec fn spec_code_config(progression: Progression) -> LayoutConfig {
    LayoutConfig { max_latin_word_width: CODE_LATIN_CAP, preserve_spaces: true, progression }
}

/// The rule set for prose.
pub fn prose_config(progression: Progression) -> (config: LayoutConfig)
    ensures
        config == spec_prose_config(progression),
{
    LayoutConfig { max_latin_word_width: PROSE_LATIN_CAP, preserve_spaces: false, progression }
}

/// The rule set for code: a wider Latin cap, and every source space kept.
pub fn code_config(progression: Progression) -> (config: LayoutConfig)
    ensures
        config == spec_code_config(progression),
{
    LayoutConfig { max_latin_word_width: CODE_LATIN_CAP, preserve_spaces: true, progression }
}

/// How one character reads in HTML text or an attribute value.
pub open spec fn escape_char(c: char) -> Seq<char> {
    if c == '&' {
        "&amp;"@
    } else if c == '<' {
        "&lt;"@
    } else if c == '>' {
        "&gt;"@
    } else if c == '"' {
        "&quot;"@
    } else {
        seq![c]
    }
}

/// `text` with `&`, `<`, `>` and `"` written as character references.
pub open spec fn escaped(text: Seq<char>) -> Seq<char>
    decreases text.len(),
{
    if text.len() == 0 {
        Seq::empty()
    } else {
        escaped(text.drop_last()) + escape_char(text.last())
    }
}

/// Appends `text`, escaped, to `html`.
pub fn push_escaped(html: &mut String, text: &str)
    ensures
        final(html)@ == old(html)@ + escaped(text@),
{
    let chars = chars_of(text);
    let mut i: usize = 0;
    assert(chars@.take(0) =~= Seq::<char>::empty());
    while i < chars.len()
        invariant
            i <= chars@.len(),
            chars@ == text@,
            html@ == old(html)@ + escaped(chars@.take(i as int)),
        decreases chars@.len() - i,
    {
        let c = chars[i];
        if c == '&' {
            html.append("&amp;");
        } else if c == '<' {
            html.append("&lt;");
        } else if c == '>' {
            html.append("&gt;");
        } else if c == '"' {
            html.append("&quot;");
        } else {
            push_char(html, c);
        }
        assert(chars@.take(i + 1).drop_last() =~= chars@.take(i as int));
        assert(html@ =~= old(html)@ + escaped(chars@.take(i + 1)));
        i = i + 1;
    }
    assert(chars@.take(i as int) =~= chars@);
}

/// Escaped text holds no `<`, `>` or `"`: nothing in it can be read as markup or end an
/// attribute value.
pub proof fn escaped_text_holds_no_markup(text: Seq<char>)
    ensures
        forall|i: int|
            0 <= i < escaped(text).len() ==> escaped(text)[i] != '<' && escaped(text)[i] != '>'
                && escaped(text)[i] != '"',
    decreases text.len(),
{
    reveal_strlit("&amp;");
    reveal_strlit("&lt;");
    reveal_strlit("&gt;");
    reveal_strlit("&quot;");
    if text.len() > 0 {
        escaped_text_holds_no_markup(text.drop_last());
        let before = escaped(text.drop_last());
        let tail = escape_char(text.last());
        assert forall|i: int| 0 <= i < escaped(text).len() implies escaped(text)[i] != '<'
            && escaped(text)[i] != '>' && escaped(text)[i] != '"' by {
            if i < before.len() {
                assert(escaped(text)[i] == before[i]);
            } else {
                assert(escaped(text)[i] == tail[i - before.len()]);
            }
        }
    }
}

/// `text` with `&`, `<`, `>` and `"` written as character references.
pub fn escape(text: &str) -> (html: String)
    ensures
        html@ == escaped(text@),
{
    let mut html = String::new();
    push_escaped(&mut html, text);
    assert(html@ =~= escaped(text@));
    html
}

pub open spec fn advance_word(progression: Progression) -> Seq<char> {
    match progression {
        Progression::RightToLeft => "left"@,
        Progression::LeftToRight => "right"@,
    }
}

/// The side columns advance toward, as the `data-column-advance` attribute says it.
fn advance_keyword(progression: Progression) -> (word: &'static str)
    ensures
        word@ == advance_word(progression),
{
    match progression {
        Progression::RightToLeft => "left",
        Progression::LeftToRight => "right",
    }
}

/// Exposes the advance keyword for hosts that render their own shell.
pub fn column_advance(layout: &Layout) -> (word: &'static str)
    ensures
        word@ == advance_word(layout.progression),
{
    advance_keyword(layout.progression)
}


/// The kind of segment a marker opens.
#[derive(Clone, Copy, Debug, PartialEq, Eq, Structural)]
pub enum Mode {
    Prose,
    Code,
    Heading(u8),
    Table,
    ListItem { ordered: bool },
}

/// How a segment is set.
#[derive(Clone, Copy, Debug, PartialEq, Eq, Structural)]
pub enum BlockKind {
    Vertical,
    Horizontal(HorizontalKind),
    Table,
}

/// The mode a character opens, if it is a marker.
pub open spec fn marker_mode(c: char) -> Option<Mode> {
    if c == MODE_CODE {
        Some(Mode::Code)
    } else if c == MODE_PROSE {
        Some(Mode::Prose)
    } else if c == MODE_TABLE {
        Some(Mode::Table)
    } else if c == MODE_LIST {
        Some(Mode::ListItem { ordered: false })
    } else if c == MODE_LIST_ORDERED {
        Some(Mode::ListItem { ordered: true })
    } else if MODE_HEADING_BASE <= (c as u32) < MODE_HEADING_BASE + MAX_HEADING_LEVEL {
        Some(Mode::Heading(((c as u32) - MODE_HEADING_BASE + 1) as u8))
    } else {
        None
    }
}

/// The marker of a heading level opens a heading of that level, clamped to 1–6.
pub proof fn heading_markers_open_their_level(level: u8, marker: char)
    requires
        marker as u32 == MODE_HEADING_BASE + clamped_level(level) - 1,
    ensures
        marker_mode(marker) == Some(Mode::Heading(clamped_level(level))),
{
}

pub open spec fn mode_config(mode: Mode, progression: Progression) -> LayoutConfig {
    match mode {
        Mode::Code => spec_code_config(progression),
        _ => spec_prose_config(progression),
    }
}

pub open spec fn mode_column_class(mode: Mode) -> Seq<char> {
    match mode {
        Mode::Prose | Mode::Table => "vertext-column vertext-column-prose"@,
        Mode::ListItem { ordered } => "vertext-column vertext-column-prose vertext-column-list "@
            + if ordered {
            "vertext-column-list-ordered"@
        } else {
            "vertext-column-list-bullet"@
        },
        Mode::Code => "vertext-column vertext-column-code"@,
        Mode::Heading(level) => "vertext-column vertext-column-prose vertext-column-heading vertext-column-h"@
            + decimal(level as nat),
    }
}

/// Whether the text is better set horizontally: more Latin-word slots than vertical ones.
pub open spec fn leans_horizontal(text: Seq<char>) -> bool {
    spec_measure(text).1 > spec_measure(text).0
}

pub open spec fn mode_block(mode: Mode, text: Seq<char>) -> BlockKind {
    match mode {
        Mode::Table => BlockKind::Table,
        Mode::Code => BlockKind::Horizontal(HorizontalKind::Code),
        _ => if leans_horizontal(text) {
            BlockKind::Horizontal(HorizontalKind::Prose)
        } else {
            BlockKind::Vertical
        },
    }
}

impl Mode {
    /// The mode `ch` opens, or `None` for ordinary text.
    pub fn from_marker(ch: char) -> (mode: Option<Mode>)
        ensures
            mode == marker_mode(ch),
    {
        if ch == MODE_CODE {
            return Some(Mode::Code);
        }
        if ch == MODE_PROSE {
            return Some(Mode::Prose);
        }
        if ch == MODE_TABLE {
            return Some(Mode::Table);
        }
        if ch == MODE_LIST {
            return Some(Mode::ListItem { ordered: false });
        }
        if ch == MODE_LIST_ORDERED {
            return Some(Mode::ListItem { ordered: true });
        }
        let c = ch as u32;
        if MODE_HEADING_BASE <= c && c - MODE_HEADING_BASE < MAX_HEADING_LEVEL as u32 {
            Some(Mode::Heading((c - MODE_HEADING_BASE) as u8 + 1))
        } else {
            None
        }
    }

    /// The rule set of the segment: a heading, a table cell or a list item is prose.
    pub fn config(self, progression: Progression) -> (config: LayoutConfig)
        ensures
            config == mode_config(self, progression),
    {
        match self {
            Mode::Code => code_config(progression),
            _ => prose_config(progression),
        }
    }

    /// The class of the columns a vertical segment of this mode is set in.
    pub fn column_class(self) -> (class: String)
        ensures
            class@ == mode_column_class(self),
    {
        let mut class = String::new();
        match self {
            Mode::Prose | Mode::Table => {
                class.append("vertext-column vertext-column-prose");
            },
            Mode::ListItem { ordered } => {
                class.append("vertext-column vertext-column-prose vertext-column-list ");
                if ordered {
                    class.append("vertext-column-list-ordered");
                } else {
                    class.append("vertext-column-list-bullet");
                }
            },
            Mode::Code => {
                class.append("vertext-column vertext-column-code");
            },
            Mode::Heading(level) => {
                class.append(
                    "vertext-column vertext-column-prose vertext-column-heading vertext-column-h",
                );
                push_decimal(&mut class, level as usize);
            },
        }
        assert(class@ =~= mode_column_class(self));
        class
    }

    /// Which way the segment is set. Code is horizontal; a table is a table; prose, headings
    /// and list items go by which script carries the line.
    pub fn block(self, text: &str) -> (block: BlockKind)
        ensures
            block == mode_block(self, text@),
    {
        match self {
            Mode::Table => BlockKind::Table,
            Mode::Code => BlockKind::Horizontal(HorizontalKind::Code),
            _ => if prefers_horizontal(text) {
                BlockKind::Horizontal(HorizontalKind::Prose)
            } else {
                BlockKind::Vertical
            },
        }
    }
}

#[derive(Clone, Copy, Debug)]
pub struct RenderOptions {
    /// Lay the entire input out under the code rule set, ignore the mode markers, and put
    /// `vertext-code` on the root.
    pub whole_strip_code: bool,
    /// Put `vertext-page` on the root.
    pub page: bool,
    /// Which way columns advance: declared by the author, never inferred.
    pub progression: Progression,
}

impl Default for RenderOptions {
    fn default() -> (options: Self)
        ensures
            !options.whole_strip_code,
            !options.page,
            options.progression == Progression::RightToLeft,
    {
        RenderOptions {
            whole_strip_code: false,
            page: false,
            progression: Progression::RightToLeft,
        }
    }
}


/// The segments closed so far, and the one still open.
pub type Split = (Seq<(Mode, Seq<char>)>, (Mode, Seq<char>));

/// One character of the split: a marker closes the open segment and opens one of its mode (a
/// marker at the very start has nothing to close, and retargets the open segment instead);
/// anything else joins the open segment.
pub open spec fn split_step(st: Split, c: char) -> Split {
    match marker_mode(c) {
        Some(mode) => if st.1.1.len() == 0 && st.0.len() == 0 {
            (st.0, (mode, Seq::empty()))
        } else {
            (st.0.push(st.1), (mode, Seq::empty()))
        },
        None => (st.0, (st.1.0, st.1.1.push(c))),
    }
}

pub open spec fn split_run(text: Seq<char>) -> Split
    decreases text.len(),
{
    if text.len() == 0 {
        (Seq::empty(), (Mode::Prose, Seq::empty()))
    } else {
        split_step(split_run(text.drop_last()), text.last())
    }
}

/// The segments of an input: all of it as code when the whole strip is code; otherwise the
/// split at the markers, the open segment kept if it has text or is the only one.
pub open spec fn segments_of(input: Seq<char>, whole_strip_code: bool) -> Seq<(Mode, Seq<char>)> {
    if whole_strip_code {
        seq![(Mode::Code, input)]
    } else {
        let st = split_run(input);
        if st.1.1.len() > 0 || st.0.len() == 0 {
            st.0.push(st.1)
        } else {
            st.0
        }
    }
}

pub open spec fn segment_views(segs: Seq<(Mode, String)>) -> Seq<(Mode, Seq<char>)> {
    segs.map_values(|p: (Mode, String)| (p.0, p.1@))
}

/// Splits the input into segments at the mode markers.
#[verifier::rlimit(30)]
pub fn segments(input: &str, whole_strip_code: bool) -> (segs: Vec<(Mode, String)>)
    ensures
        segment_views(segs@) == segments_of(input@, whole_strip_code),
{
    let mut segs: Vec<(Mode, String)> = Vec::new();
    if whole_strip_code {
        segs.push((Mode::Code, input.to_owned()));
        assert(segment_views(segs@) =~= segments_of(input@, whole_strip_code));
        return segs;
    }
    let chars = chars_of(input);
    let mut mode = Mode::Prose;
    let mut current = String::new();
    let mut i: usize = 0;
    assert(chars@.take(0) =~= Seq::<char>::empty());
    assert(segment_views(segs@) =~= Seq::<(Mode, Seq<char>)>::empty());
    while i < chars.len()
        invariant
            i <= chars@.len(),
            chars@ == input@,
            (segment_views(segs@), (mode, current@)) == split_run(chars@.take(i as int)),
        decreases chars@.len() - i,
    {
        let c = chars[i];
        let ghost before = split_run(chars@.take(i as int));
        assert(chars@.take(i + 1).drop_last() =~= chars@.take(i as int));
        match Mode::from_marker(c) {
            Some(next) => {
                if current.as_str().is_empty() && segs.len() == 0 {
                    mode = next;
                } else {
                    let ghost old_segs = segment_views(segs@);
                    let mut closed = String::new();
                    core::mem::swap(&mut closed, &mut current);
                    segs.push((mode, closed));
                    assert(segment_views(segs@) =~= old_segs.push(before.1));
                    mode = next;
                }
                assert(current@ =~= Seq::<char>::empty());
            },
            None => {
                push_char(&mut current, c);
            },
        }
        i = i + 1;
    }
    assert(chars@.take(i as int) =~= chars@);
    if !current.as_str().is_empty() || segs.len() == 0 {
        let ghost old_segs = segment_views(segs@);
        segs.push((mode, current));
        assert(segment_views(segs@) =~= old_segs.push((mode, current@)));
    }
    segs
}

/// The texts of some segments, one after another.
pub open spec fn segment_texts(segs: Seq<(Mode, Seq<char>)>) -> Seq<char>
    decreases segs.len(),
{
    if segs.len() == 0 {
        Seq::empty()
    } else {
        segment_texts(segs.drop_last()) + segs.last().1
    }
}

pub open spec fn is_plain(c: char) -> bool {
    marker_mode(c) is None
}

/// `text` without its mode markers.
pub open spec fn unmarked(text: Seq<char>) -> Seq<char> {
    text.filter(|c: char| is_plain(c))
}

proof fn lemma_split_run(text: Seq<char>)
    ensures
        segment_texts(split_run(text).0) + split_run(text).1.1 == unmarked(text),
        forall|i: int, k: int|
            0 <= i < split_run(text).0.len() && 0 <= k < split_run(text).0[i].1.len() ==> is_plain(
                #[trigger] split_run(text).0[i].1[k],
            ),
        forall|k: int| 0 <= k < split_run(text).1.1.len() ==> is_plain(#[trigger] split_run(text).1.1[k]),
    decreases text.len(),
{
    if text.len() > 0 {
        let prev = split_run(text.drop_last());
        lemma_split_run(text.drop_last());
        let c = text.last();
        let st = split_run(text);
        reveal(Seq::filter);
        assert(unmarked(text) == if is_plain(c) {
            unmarked(text.drop_last()).push(c)
        } else {
            unmarked(text.drop_last())
        });
        match marker_mode(c) {
            Some(mode) => {
                if prev.1.1.len() == 0 && prev.0.len() == 0 {
                    assert(segment_texts(st.0) + st.1.1 =~= segment_texts(prev.0) + prev.1.1);
                } else {
                    assert(st.0.drop_last() =~= prev.0);
                    assert(segment_texts(st.0) + st.1.1 =~= segment_texts(prev.0) + prev.1.1);
                    assert forall|i: int, k: int|
                        0 <= i < st.0.len() && 0 <= k < st.0[i].1.len() implies is_plain(
                            #[trigger] st.0[i].1[k],
                        ) by {
                        if i < prev.0.len() {
                            assert(st.0[i] == prev.0[i]);
                        }
                    }
                }
            },
            None => {
                assert(segment_texts(st.0) + st.1.1 =~= (segment_texts(prev.0) + prev.1.1).push(c));
            },
        }
    }
}

/// Splitting at the markers removes the markers and nothing else: the segments' texts, one
/// after another, are the input without its markers, and no segment holds a marker.
pub proof fn segments_keep_all_but_the_markers(input: Seq<char>)
    ensures
        segment_texts(segments_of(input, false)) == unmarked(input),
        forall|i: int, k: int|
            0 <= i < segments_of(input, false).len() && 0 <= k < segments_of(input, false)[i].1.len()
                ==> is_plain(#[trigger] segments_of(input, false)[i].1[k]),
{
    lemma_split_run(input);
    let st = split_run(input);
    let segs = segments_of(input, false);
    if st.1.1.len() > 0 || st.0.len() == 0 {
        assert(segs.drop_last() =~= st.0);
        assert forall|i: int, k: int|
            0 <= i < segs.len() && 0 <= k < segs[i].1.len() implies is_plain(#[trigger] segs[i].1[k]) by {
            if i < st.0.len() {
                assert(segs[i] == st.0[i]);
            }
        }
    } else {
        assert(st.1.1 =~= Seq::<char>::empty());
        assert(segment_texts(st.0) + st.1.1 =~= segment_texts(st.0));
    }
}


pub open spec fn kind_class(kind: SlotKind) -> Seq<char> {
    match kind {
        SlotKind::Upright => "vertext-upright"@,
        SlotKind::LatinWord => "vertext-latin"@,
        SlotKind::MongolianRun => "vertext-mongolian"@,
        SlotKind::Space => "vertext-space"@,
        SlotKind::VerticalPunctuation => "vertext-vform"@,
        SlotKind::CornerPunctuation => "vertext-corner"@,
        SlotKind::Neutral => "vertext-neutral"@,
    }
}

/// Each kind of slot has its own class: corner punctuation is `vertext-corner`, punctuation
/// with a vertical form `vertext-vform`, and so on, one class per kind, no two kinds sharing one.
pub proof fn each_slot_kind_has_its_own_class(a: SlotKind, b: SlotKind)
    ensures
        (kind_class(a) == "vertext-upright"@) <==> a == SlotKind::Upright,
        (kind_class(a) == "vertext-latin"@) <==> a == SlotKind::LatinWord,
        (kind_class(a) == "vertext-mongolian"@) <==> a == SlotKind::MongolianRun,
        (kind_class(a) == "vertext-space"@) <==> a == SlotKind::Space,
        (kind_class(a) == "vertext-vform"@) <==> a == SlotKind::VerticalPunctuation,
        (kind_class(a) == "vertext-corner"@) <==> a == SlotKind::CornerPunctuation,
        (kind_class(a) == "vertext-neutral"@) <==> a == SlotKind::Neutral,
        a != b ==> kind_class(a) != kind_class(b),
{
    reveal_strlit("vertext-upright");
    reveal_strlit("vertext-latin");
    reveal_strlit("vertext-mongolian");
    reveal_strlit("vertext-space");
    reveal_strlit("vertext-vform");
    reveal_strlit("vertext-corner");
    reveal_strlit("vertext-neutral");
    assert("vertext-upright"@[8] == 'u' && "vertext-latin"@[8] == 'l' && "vertext-mongolian"@[8] == 'm'
        && "vertext-space"@[8] == 's' && "vertext-vform"@[8] == 'v' && "vertext-corner"@[8] == 'c'
        && "vertext-neutral"@[8] == 'n');
}

/// One slot: a span whose class names its kind, holding its text exactly as written, escaped.
pub open spec fn slot_html(slot: (SlotKind, Seq<char>)) -> Seq<char> {
    "<span class=\""@ + kind_class(slot.0) + "\">"@ + escaped(slot.1) + "</span>"@
}

pub open spec fn slots_html(slots: Seq<(SlotKind, Seq<char>)>) -> Seq<char>
    decreases slots.len(),
{
    if slots.len() == 0 {
        Seq::empty()
    } else {
        slots_html(slots.drop_last()) + slot_html(slots.last())
    }
}

/// Columns: one `div` of class `class` each, holding its slots.
pub open spec fn columns_html(cols: Seq<Seq<(SlotKind, Seq<char>)>>, class: Seq<char>) -> Seq<char>
    decreases cols.len(),
{
    if cols.len() == 0 {
        Seq::empty()
    } else {
        columns_html(cols.drop_last(), class) + "<div class=\""@ + class + "\">"@ + slots_html(
            cols.last(),
        ) + "</div>"@
    }
}

/// The columns of `text` laid out under `config`, as kinds and texts.
pub open spec fn laid_out(text: Seq<char>, config: LayoutConfig) -> Seq<Seq<(SlotKind, Seq<char>)>> {
    shown_columns(model_of(text, config).columns)
}

fn push_slot_kind_class(html: &mut String, slot: &Slot)
    ensures
        final(html)@ == old(html)@ + kind_class(slot@.0),
{
    match slot {
        Slot::Upright(_) => html.append("vertext-upright"),
        Slot::LatinWord(_) => html.append("vertext-latin"),
        Slot::MongolianRun(_) => html.append("vertext-mongolian"),
        Slot::Space(_) => html.append("vertext-space"),
        Slot::VerticalPunctuation(_) => html.append("vertext-vform"),
        Slot::CornerPunctuation(_) => html.append("vertext-corner"),
        Slot::Neutral(_) => html.append("vertext-neutral"),
    }
}

/// Appends the slots, each as a span of its kind. Whitespace and punctuation are emitted as the
/// characters the author typed; how they look is the stylesheet's job.
#[verifier::rlimit(30)]
pub fn render_slots(html: &mut String, slots: &[Slot])
    ensures
        final(html)@ == old(html)@ + slots_html(crate::layout::slots_view(slots@)),
{
    let ghost sv = crate::layout::slots_view(slots@);
    let mut i: usize = 0;
    assert(sv.take(0) =~= Seq::<(SlotKind, Seq<char>)>::empty());
    while i < slots.len()
        invariant
            i <= slots@.len(),
            sv == crate::layout::slots_view(slots@),
            html@ == old(html)@ + slots_html(sv.take(i as int)),
        decreases slots@.len() - i,
    {
        let slot = &slots[i];
        html.append("<span class=\"");
        push_slot_kind_class(html, slot);
        html.append("\">");
        push_escaped(html, crate::geometry::slot_text(slot));
        html.append("</span>");
        assert(sv.take(i + 1).drop_last() =~= sv.take(i as int));
        assert(sv[i as int] == slot@);
        assert(html@ =~= old(html)@ + slots_html(sv.take(i + 1)));
        i = i + 1;
    }
    assert(sv.take(i as int) =~= sv);
}

/// Appends each column of `layout` as a `div` of class `class`.
#[verifier::rlimit(30)]
fn render_columns(html: &mut String, layout: &Layout, class: &str)
    ensures
        final(html)@ == old(html)@ + columns_html(layout.slots_of(), class@),
{
    let ghost cols = layout.slots_of();
    let mut i: usize = 0;
    assert(cols.take(0) =~= Seq::<Seq<(SlotKind, Seq<char>)>>::empty());
    while i < layout.columns.len()
        invariant
            i <= layout.columns@.len(),
            cols == layout.slots_of(),
            html@ == old(html)@ + columns_html(cols.take(i as int), class@),
        decreases layout.columns@.len() - i,
    {
        html.append("<div class=\"");
        html.append(class);
        html.append("\">");
        render_slots(html, layout.columns[i].slots.as_slice());
        html.append("</div>");
        assert(cols.take(i + 1).drop_last() =~= cols.take(i as int));
        assert(cols[i as int] == crate::layout::slots_view(layout.columns@[i as int].slots@));
        assert(html@ =~= old(html)@ + columns_html(cols.take(i + 1), class@));
        i = i + 1;
    }
    assert(cols.take(i as int) =~= cols);
}


pub open spec fn horizontal_kind_class(kind: HorizontalKind) -> Seq<char> {
    match kind {
        HorizontalKind::Prose => "vertext-horizontal-prose"@,
        HorizontalKind::Code => "vertext-horizontal-code"@,
    }
}

pub open spec fn horizontal_mode_class(mode: Mode) -> Seq<char> {
    match mode {
        Mode::Heading(level) => " vertext-horizontal-heading vertext-horizontal-h"@ + decimal(
            level as nat,
        ),
        Mode::ListItem { ordered } => " vertext-horizontal-list"@ + if ordered {
            " vertext-horizontal-list-ordered"@
        } else {
            " vertext-horizontal-list-bullet"@
        },
        _ => Seq::empty(),
    }
}

pub open spec fn horizontal_tag(kind: HorizontalKind) -> Seq<char> {
    match kind {
        HorizontalKind::Code => "pre"@,
        HorizontalKind::Prose => "div"@,
    }
}

/// How far the marking of bichig runs in a line of horizontal prose has got: the pieces set
/// so far (each a run of bichig, or text that is not), the open run, and a suffix separator
/// after it that waits to learn whether a suffix follows.
pub struct InlineState {
    pub pieces: Seq<(bool, Seq<char>)>,
    pub run: Seq<char>,
    pub separator: Seq<char>,
}

/// One grapheme cluster, classified by its first character. A Mongolian cluster joins the open
/// run, together with a separator it held back; a suffix separator after a run waits; any
/// other cluster closes the run (a waiting separator then stands after it, outside) and is set
/// as plain text.
pub open spec fn inline_step(st: InlineState, cluster: Seq<char>) -> InlineState {
    if cluster.len() == 0 {
        st
    } else {
        let base = cluster[0];
        let s = if st.separator.len() > 0 && !spec_is_mongolian(base) {
            InlineState {
                pieces: st.pieces.push((true, st.run)).push((false, st.separator)),
                run: Seq::empty(),
                separator: Seq::empty(),
            }
        } else {
            st
        };
        if spec_is_mongolian(base) {
            InlineState { run: s.run + s.separator + cluster, separator: Seq::empty(), ..s }
        } else if spec_is_suffix_separator(base) && s.run.len() > 0 {
            InlineState { separator: s.separator + cluster, ..s }
        } else if s.run.len() > 0 {
            InlineState {
                pieces: s.pieces.push((true, s.run)).push((false, cluster)),
                run: Seq::empty(),
                ..s
            }
        } else {
            InlineState { pieces: s.pieces.push((false, cluster)), ..s }
        }
    }
}

pub open spec fn inline_scan(cs: Seq<Seq<char>>) -> InlineState
    decreases cs.len(),
{
    if cs.len() == 0 {
        InlineState { pieces: Seq::empty(), run: Seq::empty(), separator: Seq::empty() }
    } else {
        inline_step(inline_scan(cs.drop_last()), cs.last())
    }
}

/// The pieces of a line of text once it has all been read: an open run closes, and a
/// separator that nothing followed stands after it.
pub open spec fn inline_pieces(cs: Seq<Seq<char>>) -> Seq<(bool, Seq<char>)> {
    let st = inline_scan(cs);
    let p = if st.run.len() > 0 {
        st.pieces.push((true, st.run))
    } else {
        st.pieces
    };
    if st.separator.len() > 0 {
        p.push((false, st.separator))
    } else {
        p
    }
}

/// A run of bichig in a line of horizontal text is marked with the class that carries its
/// joining face; any other text is escaped as it is.
pub open spec fn piece_html(piece: (bool, Seq<char>)) -> Seq<char> {
    if piece.0 {
        "<span class=\"vertext-mongolian-inline\">"@ + escaped(piece.1) + "</span>"@
    } else {
        escaped(piece.1)
    }
}

pub open spec fn pieces_html(ps: Seq<(bool, Seq<char>)>) -> Seq<char>
    decreases ps.len(),
{
    if ps.len() == 0 {
        Seq::empty()
    } else {
        pieces_html(ps.drop_last()) + piece_html(ps.last())
    }
}

/// The text of a horizontal block. Code keeps its monospace face and is only escaped; in prose
/// each run of bichig (a U+202F between two Mongolian clusters is inside the run, as in a
/// Mongolian slot) is marked so that it gets a face that joins. The text is cut on the grapheme
/// clusters of `unicode-segmentation` (the guard on `partitions` only keeps the definition
/// total: those clusters always cut the text).
#[verifier::opaque]
pub open spec fn horizontal_body(text: Seq<char>, kind: HorizontalKind) -> Seq<char> {
    match kind {
        HorizontalKind::Code => escaped(text),
        HorizontalKind::Prose => if partitions(grapheme_clusters(text), text) {
            pieces_html(inline_pieces(grapheme_clusters(text)))
        } else {
            escaped(text)
        },
    }
}

/// A horizontal block: its kind and mode as classes, its measure as the `--vertext-wrap`
/// custom property, and its text inside a `pre` (code) or a `div` (prose). Line breaking is left
/// to the host, which has the font metrics.
pub open spec fn horizontal_html(text: Seq<char>, kind: HorizontalKind, mode: Mode) -> Seq<char> {
    "<div class=\"vertext-horizontal "@ + horizontal_kind_class(kind) + horizontal_mode_class(mode)
        + "\" style=\"--vertext-wrap:"@ + decimal(kind.spec_default_wrap() as nat) + "ch\"><"@
        + horizontal_tag(kind) + ">"@ + horizontal_body(text, kind) + "</"@ + horizontal_tag(kind)
        + "></div>"@
}

proof fn lemma_pieces_html_push(ps: Seq<(bool, Seq<char>)>, x: (bool, Seq<char>))
    ensures
        pieces_html(ps.push(x)) == pieces_html(ps) + piece_html(x),
{
    assert(ps.push(x).drop_last() =~= ps);
}

/// Appends one piece of a line: a bichig run in its span, or plain text, escaped.
fn push_piece(html: &mut String, is_run: bool, text: &str)
    ensures
        final(html)@ == old(html)@ + piece_html((is_run, text@)),
{
    if is_run {
        html.append("<span class=\"vertext-mongolian-inline\">");
        push_escaped(html, text);
        html.append("</span>");
    } else {
        push_escaped(html, text);
    }
}

/// Appends the text of a horizontal block.
fn push_horizontal_body(html: &mut String, text: &str, kind: HorizontalKind)
    ensures
        final(html)@ == old(html)@ + horizontal_body(text@, kind),
{
    reveal(horizontal_body);
    match kind {
        HorizontalKind::Code => push_escaped(html, text),
        HorizontalKind::Prose => {
            let clusters = graphemes(text);
            let ghost cs = string_views(clusters@);
            let mut run = String::new();
            let mut separator = String::new();
            let ghost start = html@;
            let mut i: usize = 0;
            assert(cs.take(0) =~= Seq::<Seq<char>>::empty());
            while i < clusters.len()
                invariant
                    i <= clusters@.len(),
                    cs == string_views(clusters@),
                    cs == grapheme_clusters(text@),
                    html@ == start + pieces_html(inline_scan(cs.take(i as int)).pieces),
                    run@ == inline_scan(cs.take(i as int)).run,
                    separator@ == inline_scan(cs.take(i as int)).separator,
                decreases clusters@.len() - i,
            {
                let cluster = clusters[i].as_str();
                let ghost st = inline_scan(cs.take(i as int));
                assert(cs.take(i + 1).drop_last() =~= cs.take(i as int));
                assert(cs.take(i + 1).last() == cluster@);
                if !cluster.is_empty() {
                    let base = cluster.get_char(0);
                    if !separator.as_str().is_empty() && !is_mongolian(base) {
                        push_piece(html, true, run.as_str());
                        push_piece(html, false, separator.as_str());
                        proof {
                            lemma_pieces_html_push(st.pieces, (true, st.run));
                            lemma_pieces_html_push(st.pieces.push((true, st.run)), (false, st.separator));
                        }
                        run = String::new();
                        separator = String::new();
                    }
                    let ghost s1 = if st.separator.len() > 0 && !spec_is_mongolian(base) {
                        InlineState {
                            pieces: st.pieces.push((true, st.run)).push((false, st.separator)),
                            run: Seq::empty(),
                            separator: Seq::empty(),
                        }
                    } else {
                        st
                    };
                    assert(html@ == start + pieces_html(s1.pieces));
                    if is_mongolian(base) {
                        run.append(separator.as_str());
                        run.append(cluster);
                        separator = String::new();
                    } else if is_suffix_separator(base) && !run.as_str().is_empty() {
                        separator.append(cluster);
                    } else {
                        if !run.as_str().is_empty() {
                            push_piece(html, true, run.as_str());
                            proof {
                                lemma_pieces_html_push(s1.pieces, (true, s1.run));
                            }
                            run = String::new();
                            push_piece(html, false, cluster);
                            proof {
                                lemma_pieces_html_push(s1.pieces.push((true, s1.run)), (false, cluster@));
                            }
                        } else {
                            push_piece(html, false, cluster);
                            proof {
                                lemma_pieces_html_push(s1.pieces, (false, cluster@));
                            }
                        }
                    }
                }
                i = i + 1;
            }
            assert(cs.take(i as int) =~= cs);
            let ghost fin = inline_scan(cs);
            if !run.as_str().is_empty() {
                push_piece(html, true, run.as_str());
                proof {
                    lemma_pieces_html_push(fin.pieces, (true, fin.run));
                }
            }
            let ghost p = if fin.run.len() > 0 {
                fin.pieces.push((true, fin.run))
            } else {
                fin.pieces
            };
            assert(html@ == start + pieces_html(p));
            if !separator.as_str().is_empty() {
                push_piece(html, false, separator.as_str());
                proof {
                    lemma_pieces_html_push(p, (false, fin.separator));
                }
            }
            assert(html@ == start + pieces_html(inline_pieces(cs)));
        },
    }
}

fn push_horizontal_tag(html: &mut String, kind: HorizontalKind)
    ensures
        final(html)@ == old(html)@ + horizontal_tag(kind),
{
    match kind {
        HorizontalKind::Code => html.append("pre"),
        HorizontalKind::Prose => html.append("div"),
    }
}

fn push_horizontal_classes(html: &mut String, kind: HorizontalKind, mode: Mode)
    ensures
        final(html)@ == old(html)@ + horizontal_kind_class(kind) + horizontal_mode_class(mode),
{
    match kind {
        HorizontalKind::Prose => html.append("vertext-horizontal-prose"),
        HorizontalKind::Code => html.append("vertext-horizontal-code"),
    }
    let ghost with_kind = html@;
    match mode {
        Mode::Heading(level) => {
            html.append(" vertext-horizontal-heading vertext-horizontal-h");
            push_decimal(html, level as usize);
        },
        Mode::ListItem { ordered } => {
            html.append(" vertext-horizontal-list");
            if ordered {
                html.append(" vertext-horizontal-list-ordered");
            } else {
                html.append(" vertext-horizontal-list-bullet");
            }
        },
        _ => {},
    }
    assert(html@ =~= with_kind + horizontal_mode_class(mode));
}

/// Appends a horizontal block: an orthogonal island in the vertical flow.
#[verifier::rlimit(30)]
pub fn render_horizontal(html: &mut String, text: &str, kind: HorizontalKind, mode: Mode)
    ensures
        final(html)@ == old(html)@ + horizontal_html(text@, kind, mode),
{
    html.append("<div class=\"vertext-horizontal ");
    push_horizontal_classes(html, kind, mode);
    html.append("\" style=\"--vertext-wrap:");
    push_decimal(html, kind.default_wrap());
    html.append("ch\"><");
    push_horizontal_tag(html, kind);
    html.append(">");
    push_horizontal_body(html, text, kind);
    html.append("</");
    push_horizontal_tag(html, kind);
    html.append("></div>");
    assert(html@ =~= old(html)@ + horizontal_html(text@, kind, mode));
}

/// The pieces of `s` between occurrences of `sep`: one more piece than there are separators.
pub open spec fn split_on(s: Seq<char>, sep: char) -> Seq<Seq<char>>
    decreases s.len(),
{
    if s.len() == 0 {
        seq![Seq::empty()]
    } else {
        let prev = split_on(s.drop_last(), sep);
        if s.last() == sep {
            prev.push(Seq::empty())
        } else {
            prev.update(prev.len() - 1, prev.last().push(s.last()))
        }
    }
}

/// Splitting keeps every piece, empty ones included: there is one more piece than there are
/// separators, and the pieces joined with the separator between them give the text back.
pub proof fn splitting_keeps_every_piece(s: Seq<char>, sep: char)
    ensures
        split_on(s, sep).len() == crate::layout::count_char(s, sep) + 1,
        join_on(split_on(s, sep), sep) == s,
    decreases s.len(),
{
    if s.len() > 0 {
        splitting_keeps_every_piece(s.drop_last(), sep);
        lemma_split_on_len(s.drop_last(), sep);
        let prev = split_on(s.drop_last(), sep);
        let cur = split_on(s, sep);
        if s.last() == sep {
            assert(cur.drop_last() =~= prev);
            assert(join_on(cur, sep) =~= join_on(prev, sep) + seq![sep]);
        } else {
            assert(cur.drop_last() =~= prev.drop_last());
            assert(cur.last() =~= prev.last().push(s.last()));
            if prev.len() > 1 {
                assert(join_on(prev, sep) == join_on(prev.drop_last(), sep) + seq![sep] + prev.last());
                assert(join_on(cur, sep) == join_on(cur.drop_last(), sep) + seq![sep] + cur.last());
            } else {
                assert(join_on(prev, sep) == prev.last());
                assert(join_on(cur, sep) == cur.last());
            }
        }
        assert(s.drop_last().push(s.last()) =~= s);
    }
}

/// Pieces joined with `sep` between each two.
pub open spec fn join_on(pieces: Seq<Seq<char>>, sep: char) -> Seq<char>
    decreases pieces.len(),
{
    if pieces.len() == 0 {
        Seq::empty()
    } else if pieces.len() == 1 {
        pieces[0]
    } else {
        join_on(pieces.drop_last(), sep) + seq![sep] + pieces.last()
    }
}

proof fn lemma_split_on_short(s: Seq<char>, sep: char)
    ensures
        forall|k: int| 0 <= k < split_on(s, sep).len() ==> (#[trigger] split_on(s, sep)[k]).len() <= s.len(),
    decreases s.len(),
{
    if s.len() > 0 {
        lemma_split_on_short(s.drop_last(), sep);
        lemma_split_on_len(s.drop_last(), sep);
        let prev = split_on(s.drop_last(), sep);
        assert forall|k: int| 0 <= k < split_on(s, sep).len() implies (#[trigger] split_on(s, sep)[k]).len()
            <= s.len() by {
            if k < prev.len() - 1 {
                assert(split_on(s, sep)[k] == prev[k]);
            } else if k == prev.len() - 1 {
                assert(prev[k].len() <= s.len() - 1);
            }
        }
    }
}

proof fn lemma_split_on_len(s: Seq<char>, sep: char)
    ensures
        split_on(s, sep).len() >= 1,
    decreases s.len(),
{
    if s.len() > 0 {
        lemma_split_on_len(s.drop_last(), sep);
    }
}

pub open spec fn string_seqs(strings: Seq<String>) -> Seq<Seq<char>> {
    strings.map_values(|s: String| s@)
}

/// Splits `text` at every `sep`.
#[verifier::rlimit(30)]
fn split_at_char(text: &str, sep: char) -> (pieces: Vec<String>)
    ensures
        string_seqs(pieces@) == split_on(text@, sep),
        text@.len() <= usize::MAX,
{
    let chars = chars_of(text);
    let mut pieces: Vec<String> = Vec::new();
    let mut current = String::new();
    let mut i: usize = 0;
    assert(chars@.take(0) =~= Seq::<char>::empty());
    assert(string_seqs(pieces@).push(current@) =~= split_on(Seq::<char>::empty(), sep));
    while i < chars.len()
        invariant
            i <= chars@.len(),
            chars@ == text@,
            string_seqs(pieces@).push(current@) == split_on(chars@.take(i as int), sep),
        decreases chars@.len() - i,
    {
        let c = chars[i];
        let ghost before = string_seqs(pieces@);
        assert(chars@.take(i + 1).drop_last() =~= chars@.take(i as int));
        if c == sep {
            let mut closed = String::new();
            core::mem::swap(&mut closed, &mut current);
            pieces.push(closed);
            assert(string_seqs(pieces@).push(current@) =~= before.push(closed@).push(
                Seq::<char>::empty(),
            ));
        } else {
            let ghost old_current = current@;
            push_char(&mut current, c);
            assert(string_seqs(pieces@).push(current@) =~= before.push(old_current).update(
                before.len() as int,
                old_current.push(c),
            ));
        }
        i = i + 1;
    }
    assert(chars@.take(i as int) =~= chars@);
    pieces.push(current);
    pieces
}

/// The rule set of a table cell: prose that never hyphenates, since a citation form broken
/// across a hard hyphen is unreadable; the column width is the constraint instead.
pub open spec fn table_config(progression: Progression) -> LayoutConfig {
    LayoutConfig { max_latin_word_width: usize::MAX, preserve_spaces: false, progression }
}

pub open spec fn cell_tag(header: bool) -> Seq<char> {
    if header {
        "th"@
    } else {
        "td"@
    }
}

pub open spec fn cells_html(cells: Seq<Seq<char>>, header: bool, config: LayoutConfig) -> Seq<char>
    decreases cells.len(),
{
    if cells.len() == 0 {
        Seq::empty()
    } else {
        cells_html(cells.drop_last(), header, config) + "<"@ + cell_tag(header)
            + " class=\"vertext-cell\">"@ + columns_html(
            laid_out(cells.last(), config),
            "vertext-column vertext-column-cell"@,
        ) + "</"@ + cell_tag(header) + ">"@
    }
}

pub open spec fn row_open(header: bool) -> Seq<char> {
    if header {
        "<thead><tr class=\"vertext-row vertext-row-header\">"@
    } else {
        "<tr class=\"vertext-row\">"@
    }
}

pub open spec fn row_close(header: bool) -> Seq<char> {
    if header {
        "</tr></thead><tbody>"@
    } else {
        "</tr>"@
    }
}

/// A row, unless it is empty: the first row is the header.
pub open spec fn row_html(row: Seq<char>, header: bool, config: LayoutConfig) -> Seq<char> {
    if row.len() == 0 {
        Seq::empty()
    } else {
        row_open(header) + cells_html(split_on(row, CELL_SEP), header, config) + row_close(header)
    }
}

pub open spec fn rows_html(rows: Seq<Seq<char>>, config: LayoutConfig) -> Seq<char>
    decreases rows.len(),
{
    if rows.len() == 0 {
        Seq::empty()
    } else {
        rows_html(rows.drop_last(), config) + row_html(rows.last(), rows.len() == 1, config)
    }
}

/// A table: rows separated by [`ROW_SEP`], cells by [`CELL_SEP`]; each cell goes through the
/// ordinary slot layout, so a Mongolian cell keeps its joined run.
pub open spec fn table_html(text: Seq<char>, progression: Progression) -> Seq<char> {
    "<table class=\"vertext-table\">"@ + rows_html(split_on(text, ROW_SEP), table_config(progression))
        + "</tbody></table>"@
}

fn push_cell_tag(html: &mut String, header: bool)
    ensures
        final(html)@ == old(html)@ + cell_tag(header),
{
    if header {
        html.append("th");
    } else {
        html.append("td");
    }
}

#[verifier::rlimit(30)]
fn render_cells(html: &mut String, row: &str, header: bool, config: &LayoutConfig)
    requires
        config.max_latin_word_width == usize::MAX,
    ensures
        final(html)@ == old(html)@ + cells_html(split_on(row@, CELL_SEP), header, *config),
        all_shown_from(cells_html(split_on(row@, CELL_SEP), header, *config), row@),
        html_within(cells_html(split_on(row@, CELL_SEP), header, *config), row@),
        forall|k: int|
            0 <= k < split_on(row@, CELL_SEP).len() ==> no_inserted_hyphen(
                model_of(#[trigger] split_on(row@, CELL_SEP)[k], *config).columns,
            ),
{
    let cells = split_at_char(row, CELL_SEP);
    let ghost cs = string_seqs(cells@);
    let mut i: usize = 0;
    assert(cs.take(0) =~= Seq::<Seq<char>>::empty());
    proof {
        lemma_split_within(row@, CELL_SEP);
    }
    while i < cells.len()
        invariant
            i <= cells@.len(),
            cs == string_seqs(cells@),
            cs == split_on(row@, CELL_SEP),
            forall|k: int| 0 <= k < cs.len() ==> crate::layout::chars_within(#[trigger] cs[k], row@),
            html@ == old(html)@ + cells_html(cs.take(i as int), header, *config),
            all_shown_from(cells_html(cs.take(i as int), header, *config), row@),
            html_within(cells_html(cs.take(i as int), header, *config), row@),
            config.max_latin_word_width == usize::MAX,
            row@.len() <= usize::MAX,
            forall|k: int| 0 <= k < i ==> no_inserted_hyphen(#[trigger] model_of(cs[k], *config).columns),
        decreases cells@.len() - i,
    {
        html.append("<");
        push_cell_tag(html, header);
        html.append(" class=\"vertext-cell\">");
        let layout = layout_text(cells[i].as_str(), config);
        render_columns(html, &layout, "vertext-column vertext-column-cell");
        html.append("</");
        push_cell_tag(html, header);
        html.append(">");
        proof {
            assert(cs[i as int] == cells@[i as int]@);
            lemma_split_on_short(row@, CELL_SEP);
            assert(cs[i as int].len() <= usize::MAX);
            crate::layout::lemma_no_inserted_hyphen(cs[i as int], usize::MAX as nat);
            lemma_cells_step(cs, i as int, header, *config, row@);
            lemma_cell_within(cs[i as int], header, *config, row@);
            lemma_within_concat(
                cells_html(cs.take(i as int), header, *config),
                cell_html(cs[i as int], header, *config),
                row@,
            );
            assert(html@ =~= old(html)@ + cells_html(cs.take(i + 1), header, *config));
        }
        i = i + 1;
    }
    assert(cs.take(i as int) =~= cs);
}

/// Appends a table. A markup table under a vertical writing mode transposes natively, so the
/// rows stay rows and the browser places them. Cells do not hyphenate: no slot of any cell a
/// row sets ends in an inserted hyphen, so the table shows ASCII markup and the text's own
/// characters only (a U+2010 only where the text has one).
#[verifier::rlimit(30)]
pub fn render_table(html: &mut String, text: &str, progression: Progression)
    ensures
        final(html)@ == old(html)@ + table_html(text@, progression),
        all_shown_from(table_html(text@, progression), text@),
        html_within(table_html(text@, progression), text@),
        forall|r: int, k: int|
            0 <= r < split_on(text@, ROW_SEP).len() && split_on(text@, ROW_SEP)[r].len() > 0 && 0 <= k
                < split_on(split_on(text@, ROW_SEP)[r], CELL_SEP).len() ==> no_inserted_hyphen(
                model_of(
                    #[trigger] split_on(split_on(text@, ROW_SEP)[r], CELL_SEP)[k],
                    table_config(progression),
                ).columns,
            ),
{
    let config = LayoutConfig { max_latin_word_width: usize::MAX, preserve_spaces: false, progression };
    html.append("<table class=\"vertext-table\">");
    let ghost start = html@;
    let rows = split_at_char(text, ROW_SEP);
    let ghost rs = string_seqs(rows@);
    let mut index: usize = 0;
    assert(rs.take(0) =~= Seq::<Seq<char>>::empty());
    proof {
        lemma_split_within(text@, ROW_SEP);
    }
    while index < rows.len()
        invariant
            index <= rows@.len(),
            rs == string_seqs(rows@),
            rs == split_on(text@, ROW_SEP),
            forall|k: int| 0 <= k < rs.len() ==> crate::layout::chars_within(#[trigger] rs[k], text@),
            config == table_config(progression),
            html@ == start + rows_html(rs.take(index as int), config),
            all_shown_from(rows_html(rs.take(index as int), config), text@),
            html_within(rows_html(rs.take(index as int), config), text@),
            forall|r: int, k: int|
                0 <= r < index && rs[r].len() > 0 && 0 <= k < split_on(rs[r], CELL_SEP).len()
                    ==> no_inserted_hyphen(
                    model_of(#[trigger] split_on(rs[r], CELL_SEP)[k], config).columns,
                ),
        decreases rows@.len() - index,
    {
        let row = rows[index].as_str();
        let header = index == 0;
        if !row.is_empty() {
            if header {
                html.append("<thead><tr class=\"vertext-row vertext-row-header\">");
            } else {
                html.append("<tr class=\"vertext-row\">");
            }
            render_cells(html, row, header, &config);
            if header {
                html.append("</tr></thead><tbody>");
            } else {
                html.append("</tr>");
            }
        }
        assert(rs.take(index + 1).drop_last() =~= rs.take(index as int));
        assert(rs[index as int] == row@);
        assert(html@ =~= start + rows_html(rs.take(index + 1), config));
        proof {
            lemma_row_shown(row@, header, config, text@);
            lemma_shown_concat(
                rows_html(rs.take(index as int), config),
                row_html(row@, header, config),
                text@,
            );
            lemma_row_within(row@, header, config, text@);
            lemma_within_concat(
                rows_html(rs.take(index as int), config),
                row_html(row@, header, config),
                text@,
            );
        }
        index = index + 1;
    }
    assert(rs.take(index as int) =~= rs);
    html.append("</tbody></table>");
    assert(html@ =~= old(html)@ + table_html(text@, progression));
    proof {
        reveal_strlit("<table class=\"vertext-table\">");
        reveal_strlit("</tbody></table>");
        lemma_ascii_shown("<table class=\"vertext-table\">"@, text@);
        lemma_ascii_shown("</tbody></table>"@, text@);
        lemma_shown_concat("<table class=\"vertext-table\">"@, rows_html(rs, config), text@);
        assert(html_within("<table class=\"vertext-table\">"@, text@));
        assert(html_within("</tbody></table>"@, text@));
        lemma_within_concat("<table class=\"vertext-table\">"@, rows_html(rs, config), text@);
        lemma_within_concat(
            "<table class=\"vertext-table\">"@ + rows_html(rs, config),
            "</tbody></table>"@,
            text@,
        );
        lemma_shown_concat(
            "<table class=\"vertext-table\">"@ + rows_html(rs, config),
            "</tbody></table>"@,
            text@,
        );
    }
}


/// `s` without the newlines that end it.
pub open spec fn trim_newlines(s: Seq<char>) -> Seq<char>
    decreases s.len(),
{
    if s.len() > 0 && s.last() == '\n' {
        trim_newlines(s.drop_last())
    } else {
        s
    }
}

/// `s` without the newlines that end it.
fn trim_trailing_newlines(s: &str) -> (t: &str)
    ensures
        t@ == trim_newlines(s@),
{
    let chars = chars_of(s);
    let mut k = chars.len();
    assert(s@.take(k as int) =~= s@);
    while k > 0 && chars[k - 1] == '\n'
        invariant
            k <= chars@.len(),
            chars@ == s@,
            trim_newlines(s@) == trim_newlines(s@.take(k as int)),
        decreases k,
    {
        assert(s@.take(k as int).drop_last() =~= s@.take(k - 1));
        k = k - 1;
    }
    assert(k == 0 ==> s@.take(k as int) =~= Seq::<char>::empty());
    s.substring_char(0, k)
}

pub open spec fn root_class(options: RenderOptions) -> Seq<char> {
    "vertext"@ + (if options.whole_strip_code {
        " vertext-code"@
    } else {
        Seq::empty()
    }) + (if options.page {
        " vertext-page"@
    } else {
        Seq::empty()
    })
}

/// The root element's opening tag: its classes, the side columns advance toward, and the Latin
/// caps as CSS custom properties, so the stylesheet never hardcodes a width.
pub open spec fn root_open(options: RenderOptions) -> Seq<char> {
    "<div class=\""@ + root_class(options) + "\" data-column-advance=\""@ + advance_word(
        options.progression,
    ) + "\" style=\"--vertext-latin-cap-prose:"@ + decimal(PROSE_LATIN_CAP as nat)
        + "ch;--vertext-latin-cap-code:"@ + decimal(CODE_LATIN_CAP as nat) + "ch\">"@
}

/// What rendering the segments so far has produced: the HTML, whether any segment had content,
/// and whether a stack of horizontal blocks is open.
pub struct Rendered {
    pub html: Seq<char>,
    pub emitted_any: bool,
    pub in_stack: bool,
}

/// How a segment is set: vertically when the whole strip is code, by its mode otherwise.
pub open spec fn segment_block(mode: Mode, trimmed: Seq<char>, options: RenderOptions) -> BlockKind {
    if options.whole_strip_code {
        BlockKind::Vertical
    } else {
        mode_block(mode, trimmed)
    }
}

/// A segment's block. A vertical one is its columns, and one blank column more for a paragraph
/// break the author typed at its end (`blank`); the newline that ends the input is no such break.
pub open spec fn block_html(
    block: BlockKind,
    mode: Mode,
    trimmed: Seq<char>,
    blank: bool,
    progression: Progression,
) -> Seq<char> {
    match block {
        BlockKind::Table => table_html(trimmed, progression),
        BlockKind::Horizontal(kind) => horizontal_html(trimmed, kind, mode),
        BlockKind::Vertical => columns_html(
            laid_out(trimmed, mode_config(mode, progression)),
            mode_column_class(mode),
        ) + if blank {
            "<div class=\""@ + mode_column_class(mode) + "\"></div>"@
        } else {
            Seq::empty()
        },
    }
}

/// One segment. A segment that is blank once its trailing newlines go is skipped; horizontal
/// blocks and tables that follow one another share one stack, which a vertical block closes.
/// `closed` says that a marker follows the segment, so that newlines ending it are a paragraph
/// break rather than the end of the input.
pub open spec fn segment_step(
    st: Rendered,
    seg: (Mode, Seq<char>),
    closed: bool,
    options: RenderOptions,
) -> Rendered {
    let trimmed = trim_newlines(seg.1);
    if trimmed.len() == 0 {
        st
    } else {
        let block = segment_block(seg.0, trimmed, options);
        let horizontal = !(block is Vertical);
        let opened = if horizontal && !st.in_stack {
            st.html + "<div class=\"vertext-hstack\">"@
        } else if !horizontal && st.in_stack {
            st.html + "</div>"@
        } else {
            st.html
        };
        let blank = closed && trimmed.len() < seg.1.len();
        Rendered {
            html: opened + block_html(block, seg.0, trimmed, blank, options.progression),
            emitted_any: true,
            in_stack: horizontal,
        }
    }
}

/// Whether the input's last segment runs to its end: no marker closes it.
pub open spec fn ends_open(input: Seq<char>, options: RenderOptions) -> bool {
    options.whole_strip_code || input.len() == 0 || marker_mode(input.last()) is None
}

/// The segments rendered in order; every one but the last is closed by a marker, and the last
/// is closed unless it runs to the end of the input.
pub open spec fn render_segments(
    segs: Seq<(Mode, Seq<char>)>,
    last_closed: bool,
    options: RenderOptions,
) -> Rendered
    decreases segs.len(),
{
    if segs.len() == 0 {
        Rendered { html: root_open(options), emitted_any: false, in_stack: false }
    } else {
        segment_step(render_segments(segs.drop_last(), true, options), segs.last(), last_closed, options)
    }
}

/// The HTML of a whole strip: the root, every segment, the stack closed if one is open, an
/// empty prose column if nothing had content, and the root closed.
pub open spec fn document_html(input: Seq<char>, options: RenderOptions) -> Seq<char> {
    let st = render_segments(
        segments_of(input, options.whole_strip_code),
        !ends_open(input, options),
        options,
    );
    st.html + (if st.in_stack {
        "</div>"@
    } else {
        Seq::empty()
    }) + (if !st.emitted_any {
        "<div class=\"vertext-column vertext-column-prose\"></div>"@
    } else {
        Seq::empty()
    }) + "</div>\n"@
}

fn push_advance(html: &mut String, progression: Progression)
    ensures
        final(html)@ == old(html)@ + advance_word(progression),
{
    let word = advance_keyword(progression);
    html.append(word);
}

/// Appends one segment's block.
#[verifier::rlimit(30)]
fn render_block(
    html: &mut String,
    block: BlockKind,
    mode: Mode,
    trimmed: &str,
    blank: bool,
    progression: Progression,
)
    ensures
        final(html)@ == old(html)@ + block_html(block, mode, trimmed@, blank, progression),
        all_shown_from(block_html(block, mode, trimmed@, blank, progression), trimmed@),
{
    match block {
        BlockKind::Table => render_table(html, trimmed, progression),
        BlockKind::Horizontal(kind) => {
            render_horizontal(html, trimmed, kind, mode);
            proof {
                lemma_horizontal_shown(trimmed@, kind, mode);
            }
        },
        BlockKind::Vertical => {
            let layout = layout_text(trimmed, &mode.config(progression));
            let column_class = mode.column_class();
            render_columns(html, &layout, column_class.as_str());
            if blank {
                html.append("<div class=\"");
                html.append(column_class.as_str());
                html.append("\"></div>");
            }
            assert(html@ =~= old(html)@ + block_html(block, mode, trimmed@, blank, progression));
            proof {
                lemma_vertical_shown(trimmed@, mode, blank, progression);
            }
        },
    }
}

/// Whether the input's last segment runs to its end.
fn input_ends_open(input: &str, options: RenderOptions) -> (r: bool)
    ensures
        r == ends_open(input@, options),
{
    if options.whole_strip_code {
        return true;
    }
    let n = input.unicode_len();
    if n == 0 {
        return true;
    }
    let last = input.get_char(n - 1);
    match Mode::from_marker(last) {
        Some(_) => false,
        None => true,
    }
}

/// Renders one strip to HTML. Unless the whole strip is code, the input is split at the mode
/// markers into segments, each set under its own rule set.
#[verifier::rlimit(30)]
pub fn render_document(input: &str, options: RenderOptions) -> (html: String)
    ensures
        html@ == document_html(input@, options),
        forall|k: int|
            0 <= k < html@.len() ==> #[trigger] html@[k] <= '\u{7f}' || html@[k]
                == crate::layout::INSERTED_HYPHEN || input@.contains(html@[k]),
        !options.whole_strip_code ==> forall|k: int| 0 <= k < html@.len() ==> is_plain(#[trigger] html@[k]),
{
    let segs = segments(input, options.whole_strip_code);
    let ghost sv = segment_views(segs@);
    let ghost u = if options.whole_strip_code {
        input@
    } else {
        unmarked(input@)
    };
    proof {
        lemma_segments_within(input@, options.whole_strip_code);
    }
    let mut html = String::new();
    html.append("<div class=\"");
    html.append("vertext");
    if options.whole_strip_code {
        html.append(" vertext-code");
    }
    if options.page {
        html.append(" vertext-page");
    }
    html.append("\" data-column-advance=\"");
    push_advance(&mut html, options.progression);
    html.append("\" style=\"--vertext-latin-cap-prose:");
    push_decimal(&mut html, PROSE_LATIN_CAP);
    html.append("ch;--vertext-latin-cap-code:");
    push_decimal(&mut html, CODE_LATIN_CAP);
    html.append("ch\">");
    assert(html@ =~= root_open(options));
    proof {
        lemma_root_ascii(options);
        lemma_ascii_shown(html@, u);
    }
    let open_end = input_ends_open(input, options);
    let mut emitted_any = false;
    let mut in_stack = false;
    let mut i: usize = 0;
    assert(sv.take(0) =~= Seq::<(Mode, Seq<char>)>::empty());
    while i < segs.len()
        invariant
            i <= segs@.len(),
            sv == segment_views(segs@),
            open_end == ends_open(input@, options),
            i < segs@.len() ==> render_segments(sv.take(i as int), true, options) == (Rendered {
                html: html@,
                emitted_any,
                in_stack,
            }),
            i == segs@.len() ==> render_segments(sv, !open_end, options) == (Rendered {
                html: html@,
                emitted_any,
                in_stack,
            }),
            forall|k: int| 0 <= k < sv.len() ==> crate::layout::chars_within(#[trigger] sv[k].1, u),
            all_shown_from(html@, u),
        decreases segs@.len() - i,
    {
        let closed = i + 1 < segs.len() || !open_end;
        let mode = segs[i].0;
        let text = segs[i].1.as_str();
        let trimmed = trim_trailing_newlines(text);
        let ghost before = html@;
        assert(sv.take(i + 1).drop_last() =~= sv.take(i as int));
        assert(sv[i as int] == (mode, text@));
        assert(i + 1 == sv.len() ==> sv.take(i + 1) =~= sv);
        if !trimmed.is_empty() {
            emitted_any = true;
            let block = if options.whole_strip_code {
                BlockKind::Vertical
            } else {
                mode.block(trimmed)
            };
            let horizontal = match block {
                BlockKind::Vertical => false,
                _ => true,
            };
            let ghost before_stack = html@;
            if horizontal && !in_stack {
                html.append("<div class=\"vertext-hstack\">");
                in_stack = true;
            } else if !horizontal && in_stack {
                html.append("</div>");
                in_stack = false;
            }
            proof {
                reveal_strlit("<div class=\"vertext-hstack\">");
                reveal_strlit("</div>");
                let added = html@.skip(before_stack.len() as int);
                assert(html@ =~= before_stack + added);
                assert(vstd::utf8::is_ascii_chars(added));
                lemma_ascii_shown(added, u);
                lemma_shown_concat(before_stack, added, u);
            }
            let blank = closed && trimmed.unicode_len() < text.unicode_len();
            let ghost before_block = html@;
            render_block(&mut html, block, mode, trimmed, blank, options.progression);
            proof {
                assert(crate::layout::chars_within(sv[i as int].1, u));
                lemma_trim_within(text@);
                lemma_chars_within_trans(trimmed@, text@, u);
                lemma_shown_widen(
                    block_html(block, mode, trimmed@, blank, options.progression),
                    trimmed@,
                    u,
                );
                lemma_shown_concat(
                    before_block,
                    block_html(block, mode, trimmed@, blank, options.progression),
                    u,
                );
            }
        }
        i = i + 1;
    }
    let ghost before_end = html@;
    if in_stack {
        html.append("</div>");
    }
    if !emitted_any {
        html.append("<div class=\"vertext-column vertext-column-prose\"></div>");
    }
    html.append("</div>\n");
    assert(html@ =~= document_html(input@, options));
    proof {
        reveal_strlit("</div>");
        reveal_strlit("<div class=\"vertext-column vertext-column-prose\"></div>");
        reveal_strlit("</div>\n");
        let added = html@.skip(before_end.len() as int);
        assert(html@ =~= before_end + added);
        assert(vstd::utf8::is_ascii_chars(added));
        lemma_ascii_shown(added, u);
        lemma_shown_concat(before_end, added, u);
        lemma_document_chars(html@, input@, options);
    }
    html
}


// ---------------------------------------------------------------------------------------------
// Which characters the renderer writes: ASCII markup, the inserted hyphen, and the input's own.
// ---------------------------------------------------------------------------------------------

/// A character the renderer may write for `text`: ASCII markup, the hyphen the layout inserts,
/// or a character of `text` itself.
pub open spec fn shown_from(ch: char, text: Seq<char>) -> bool {
    ch <= '\u{7f}' || ch == crate::layout::INSERTED_HYPHEN || text.contains(ch)
}

pub open spec fn all_shown_from(s: Seq<char>, text: Seq<char>) -> bool {
    forall|k: int| 0 <= k < s.len() ==> shown_from(#[trigger] s[k], text)
}

proof fn lemma_shown_concat(a: Seq<char>, b: Seq<char>, t: Seq<char>)
    requires
        all_shown_from(a, t),
        all_shown_from(b, t),
    ensures
        all_shown_from(a + b, t),
{
    assert forall|k: int| 0 <= k < (a + b).len() implies shown_from(#[trigger] (a + b)[k], t) by {
        if k < a.len() {
            assert((a + b)[k] == a[k]);
        } else {
            assert((a + b)[k] == b[k - a.len()]);
        }
    }
}

proof fn lemma_ascii_shown(s: Seq<char>, t: Seq<char>)
    requires
        vstd::utf8::is_ascii_chars(s),
    ensures
        all_shown_from(s, t),
{
}

proof fn lemma_shown_widen(s: Seq<char>, t: Seq<char>, u: Seq<char>)
    requires
        all_shown_from(s, t),
        crate::layout::chars_within(t, u),
    ensures
        all_shown_from(s, u),
{
    assert forall|k: int| 0 <= k < s.len() implies shown_from(#[trigger] s[k], u) by {
        if !(s[k] <= '\u{7f}') && s[k] != crate::layout::INSERTED_HYPHEN {
            assert(t.contains(s[k]));
            let x = choose|x: int| 0 <= x < t.len() && t[x] == s[k];
            assert(u.contains(t[x]));
        }
    }
}

proof fn lemma_decimal_ascii(n: nat)
    ensures
        vstd::utf8::is_ascii_chars(decimal(n)),
    decreases n,
{
    if n >= 10 {
        lemma_decimal_ascii(n / 10);
        assert(decimal(n) == decimal(n / 10).push(crate::text::digit_char(n % 10)));
        let d = (48 + n % 10) as u8;
        assert((d as char) <= '\u{7f}');
    } else {
        let d = (48 + n) as u8;
        assert((d as char) <= '\u{7f}');
    }
}

/// Escaping writes each character of the text, or an ASCII character reference for it.
proof fn lemma_escaped_shown(text: Seq<char>)
    ensures
        all_shown_from(escaped(text), text),
    decreases text.len(),
{
    if text.len() > 0 {
        reveal_strlit("&amp;");
        reveal_strlit("&lt;");
        reveal_strlit("&gt;");
        reveal_strlit("&quot;");
        lemma_escaped_shown(text.drop_last());
        let c = text.last();
        assert(text[text.len() - 1] == c);
        assert forall|k: int| 0 <= k < text.drop_last().len() implies text.contains(
            #[trigger] text.drop_last()[k],
        ) by {
            assert(text[k] == text.drop_last()[k]);
        }
        lemma_shown_widen(escaped(text.drop_last()), text.drop_last(), text);
        assert(all_shown_from(escape_char(c), text));
        lemma_shown_concat(escaped(text.drop_last()), escape_char(c), text);
    }
}

proof fn lemma_kind_class_ascii(kind: SlotKind)
    ensures
        vstd::utf8::is_ascii_chars(kind_class(kind)),
{
    reveal_strlit("vertext-upright");
    reveal_strlit("vertext-latin");
    reveal_strlit("vertext-mongolian");
    reveal_strlit("vertext-space");
    reveal_strlit("vertext-vform");
    reveal_strlit("vertext-corner");
    reveal_strlit("vertext-neutral");
}

/// The spans of some slots show only ASCII markup and the slots' own characters.
proof fn lemma_slots_html_shown(slots: Seq<(SlotKind, Seq<char>)>, t: Seq<char>)
    requires
        forall|j: int| 0 <= j < slots.len() ==> crate::layout::shown_within((#[trigger] slots[j]).1, t),
    ensures
        all_shown_from(slots_html(slots), t),
    decreases slots.len(),
{
    if slots.len() > 0 {
        assert forall|j: int| 0 <= j < slots.drop_last().len() implies crate::layout::shown_within(
            (#[trigger] slots.drop_last()[j]).1,
            t,
        ) by {
            assert(slots.drop_last()[j] == slots[j]);
        }
        lemma_slots_html_shown(slots.drop_last(), t);
        let s = slots.last();
        assert(crate::layout::shown_within(slots[slots.len() - 1].1, t));
        reveal_strlit("<span class=\"");
        reveal_strlit("\">");
        reveal_strlit("</span>");
        lemma_kind_class_ascii(s.0);
        lemma_escaped_shown(s.1);
        assert forall|k: int| 0 <= k < escaped(s.1).len() implies shown_from(
            #[trigger] escaped(s.1)[k],
            t,
        ) by {
            assert(shown_from(escaped(s.1)[k], s.1));
            if !(escaped(s.1)[k] <= '\u{7f}') && escaped(s.1)[k] != crate::layout::INSERTED_HYPHEN {
                let x = choose|x: int| 0 <= x < s.1.len() && s.1[x] == escaped(s.1)[k];
                assert(s.1[x] == crate::layout::INSERTED_HYPHEN || t.contains(s.1[x]));
            }
        }
        lemma_ascii_shown("<span class=\""@, t);
        lemma_ascii_shown(kind_class(s.0), t);
        lemma_ascii_shown("\">"@, t);
        lemma_ascii_shown("</span>"@, t);
        lemma_shown_concat("<span class=\""@, kind_class(s.0), t);
        lemma_shown_concat("<span class=\""@ + kind_class(s.0), "\">"@, t);
        lemma_shown_concat("<span class=\""@ + kind_class(s.0) + "\">"@, escaped(s.1), t);
        lemma_shown_concat("<span class=\""@ + kind_class(s.0) + "\">"@ + escaped(s.1), "</span>"@, t);
        lemma_shown_concat(slots_html(slots.drop_last()), slot_html(s), t);
    }
}


proof fn lemma_column_class_ascii(mode: Mode)
    ensures
        vstd::utf8::is_ascii_chars(mode_column_class(mode)),
{
    reveal_strlit("vertext-column vertext-column-prose");
    reveal_strlit("vertext-column vertext-column-prose vertext-column-list ");
    reveal_strlit("vertext-column-list-ordered");
    reveal_strlit("vertext-column-list-bullet");
    reveal_strlit("vertext-column vertext-column-code");
    reveal_strlit("vertext-column vertext-column-prose vertext-column-heading vertext-column-h");
    if let Mode::Heading(level) = mode {
        lemma_decimal_ascii(level as nat);
    }
}

/// Columns of slots show only ASCII markup and the slots' own characters.
proof fn lemma_columns_html_shown(cols: Seq<Seq<(SlotKind, Seq<char>)>>, class: Seq<char>, t: Seq<char>)
    requires
        vstd::utf8::is_ascii_chars(class),
        forall|c: int, j: int|
            0 <= c < cols.len() && 0 <= j < cols[c].len() ==> crate::layout::shown_within(
                (#[trigger] cols[c][j]).1,
                t,
            ),
    ensures
        all_shown_from(columns_html(cols, class), t),
    decreases cols.len(),
{
    if cols.len() > 0 {
        let p = cols.drop_last();
        assert forall|c: int, j: int| 0 <= c < p.len() && 0 <= j < p[c].len() implies crate::layout::shown_within(
            (#[trigger] p[c][j]).1,
            t,
        ) by {
            assert(p[c] == cols[c]);
        }
        lemma_columns_html_shown(p, class, t);
        let last = cols.last();
        assert forall|j: int| 0 <= j < last.len() implies crate::layout::shown_within(
            (#[trigger] last[j]).1,
            t,
        ) by {
            assert(last == cols[cols.len() - 1]);
        }
        lemma_slots_html_shown(last, t);
        reveal_strlit("<div class=\"");
        reveal_strlit("\">");
        reveal_strlit("</div>");
        lemma_ascii_shown("<div class=\""@, t);
        lemma_ascii_shown(class, t);
        lemma_ascii_shown("\">"@, t);
        lemma_ascii_shown("</div>"@, t);
        let a = columns_html(p, class);
        lemma_shown_concat(a, "<div class=\""@, t);
        lemma_shown_concat(a + "<div class=\""@, class, t);
        lemma_shown_concat(a + "<div class=\""@ + class, "\">"@, t);
        lemma_shown_concat(a + "<div class=\""@ + class + "\">"@, slots_html(last), t);
        lemma_shown_concat(a + "<div class=\""@ + class + "\">"@ + slots_html(last), "</div>"@, t);
    }
}

/// The texts of a line's pieces, one after another.
pub open spec fn pieces_text(ps: Seq<(bool, Seq<char>)>) -> Seq<char>
    decreases ps.len(),
{
    if ps.len() == 0 {
        Seq::empty()
    } else {
        pieces_text(ps.drop_last()) + ps.last().1
    }
}

proof fn lemma_pieces_text_push(ps: Seq<(bool, Seq<char>)>, x: (bool, Seq<char>))
    ensures
        pieces_text(ps.push(x)) == pieces_text(ps) + x.1,
{
    assert(ps.push(x).drop_last() =~= ps);
}

/// Marking the bichig runs of a line moves, drops and adds no character: the pieces, one after
/// another, are the clusters read so far.
proof fn lemma_inline_scan_text(cs: Seq<Seq<char>>)
    ensures
        pieces_text(inline_scan(cs).pieces) + inline_scan(cs).run + inline_scan(cs).separator
            == concat_all(cs),
        inline_scan(cs).separator.len() > 0 ==> inline_scan(cs).run.len() > 0,
    decreases cs.len(),
{
    if cs.len() == 0 {
        assert(pieces_text(Seq::<(bool, Seq<char>)>::empty()) =~= Seq::<char>::empty());
        assert(concat_all(cs) =~= Seq::<char>::empty());
    } else {
        let p = cs.drop_last();
        let c = cs.last();
        lemma_inline_scan_text(p);
        let st = inline_scan(p);
        if c.len() > 0 {
            let base = c[0];
            let s1 = if st.separator.len() > 0 && !spec_is_mongolian(base) {
                InlineState {
                    pieces: st.pieces.push((true, st.run)).push((false, st.separator)),
                    run: Seq::empty(),
                    separator: Seq::empty(),
                }
            } else {
                st
            };
            if st.separator.len() > 0 && !spec_is_mongolian(base) {
                lemma_pieces_text_push(st.pieces, (true, st.run));
                lemma_pieces_text_push(st.pieces.push((true, st.run)), (false, st.separator));
            }
            assert(pieces_text(s1.pieces) + s1.run + s1.separator =~= pieces_text(st.pieces)
                + st.run + st.separator);
            if spec_is_mongolian(base) {
            } else if spec_is_suffix_separator(base) && s1.run.len() > 0 {
            } else if s1.run.len() > 0 {
                lemma_pieces_text_push(s1.pieces, (true, s1.run));
                lemma_pieces_text_push(s1.pieces.push((true, s1.run)), (false, c));
            } else {
                lemma_pieces_text_push(s1.pieces, (false, c));
            }
            assert(pieces_text(inline_scan(cs).pieces) + inline_scan(cs).run + inline_scan(
                cs,
            ).separator =~= concat_all(cs));
        } else {
            assert(concat_all(cs) =~= concat_all(p) + c);
        }
    }
}

/// Marking the bichig runs of a line keeps its text: the pieces, one after another, spell the
/// clusters again.
proof fn lemma_inline_pieces_text(cs: Seq<Seq<char>>)
    ensures
        pieces_text(inline_pieces(cs)) == concat_all(cs),
{
    lemma_inline_scan_text(cs);
    let st = inline_scan(cs);
    let p = if st.run.len() > 0 {
        st.pieces.push((true, st.run))
    } else {
        st.pieces
    };
    if st.run.len() > 0 {
        lemma_pieces_text_push(st.pieces, (true, st.run));
    }
    assert(pieces_text(p) + st.separator =~= concat_all(cs));
    if st.separator.len() > 0 {
        lemma_pieces_text_push(p, (false, st.separator));
    }
}

proof fn lemma_pieces_html_shown(ps: Seq<(bool, Seq<char>)>, t: Seq<char>)
    requires
        crate::layout::chars_within(pieces_text(ps), t),
    ensures
        all_shown_from(pieces_html(ps), t),
    decreases ps.len(),
{
    if ps.len() > 0 {
        let p = ps.drop_last();
        let x = ps.last();
        assert(pieces_text(ps) == pieces_text(p) + x.1);
        assert(crate::layout::chars_within(pieces_text(p), t)) by {
            assert forall|k: int| 0 <= k < pieces_text(p).len() implies t.contains(
                #[trigger] pieces_text(p)[k],
            ) by {
                assert(pieces_text(ps)[k] == pieces_text(p)[k]);
            }
        }
        assert(crate::layout::chars_within(x.1, t)) by {
            assert forall|k: int| 0 <= k < x.1.len() implies t.contains(#[trigger] x.1[k]) by {
                assert(pieces_text(ps)[pieces_text(p).len() + k] == x.1[k]);
            }
        }
        lemma_pieces_html_shown(p, t);
        lemma_escaped_shown(x.1);
        lemma_shown_widen(escaped(x.1), x.1, t);
        reveal_strlit("<span class=\"vertext-mongolian-inline\">");
        reveal_strlit("</span>");
        let open = "<span class=\"vertext-mongolian-inline\">"@;
        let close = "</span>"@;
        lemma_ascii_shown(open, t);
        lemma_ascii_shown(close, t);
        if x.0 {
            lemma_shown_concat(open, escaped(x.1), t);
            lemma_shown_concat(open + escaped(x.1), close, t);
        }
        lemma_shown_concat(pieces_html(p), piece_html(x), t);
    }
}

/// The text of a horizontal block shows only ASCII markup and the text's own characters.
proof fn lemma_body_shown(text: Seq<char>, kind: HorizontalKind)
    ensures
        all_shown_from(horizontal_body(text, kind), text),
{
    reveal(horizontal_body);
    lemma_escaped_shown(text);
    let cs = grapheme_clusters(text);
    if kind == HorizontalKind::Prose && partitions(cs, text) {
        lemma_inline_pieces_text(cs);
        assert(crate::layout::chars_within(pieces_text(inline_pieces(cs)), text)) by {
            assert forall|k: int| 0 <= k < pieces_text(inline_pieces(cs)).len() implies text.contains(
                #[trigger] pieces_text(inline_pieces(cs))[k],
            ) by {
                assert(text[k] == pieces_text(inline_pieces(cs))[k]);
            }
        }
        lemma_pieces_html_shown(inline_pieces(cs), text);
    }
}

/// A horizontal block shows only ASCII markup and its text's own characters.
proof fn lemma_horizontal_shown(text: Seq<char>, kind: HorizontalKind, mode: Mode)
    ensures
        all_shown_from(horizontal_html(text, kind, mode), text),
{
    reveal_strlit("<div class=\"vertext-horizontal ");
    reveal_strlit("vertext-horizontal-prose");
    reveal_strlit("vertext-horizontal-code");
    reveal_strlit(" vertext-horizontal-heading vertext-horizontal-h");
    reveal_strlit(" vertext-horizontal-list");
    reveal_strlit(" vertext-horizontal-list-ordered");
    reveal_strlit(" vertext-horizontal-list-bullet");
    reveal_strlit("\" style=\"--vertext-wrap:");
    reveal_strlit("ch\"><");
    reveal_strlit("pre");
    reveal_strlit("div");
    reveal_strlit(">");
    reveal_strlit("</");
    reveal_strlit("></div>");
    if let Mode::Heading(level) = mode {
        lemma_decimal_ascii(level as nat);
    }
    lemma_decimal_ascii(kind.spec_default_wrap() as nat);
    let head = "<div class=\"vertext-horizontal "@ + horizontal_kind_class(kind) + horizontal_mode_class(mode)
        + "\" style=\"--vertext-wrap:"@ + decimal(kind.spec_default_wrap() as nat) + "ch\"><"@
        + horizontal_tag(kind) + ">"@;
    assert(vstd::utf8::is_ascii_chars(horizontal_kind_class(kind)));
    assert(vstd::utf8::is_ascii_chars(horizontal_mode_class(mode)));
    assert(vstd::utf8::is_ascii_chars(horizontal_tag(kind)));
    assert(vstd::utf8::is_ascii_chars(head));
    let tail = "</"@ + horizontal_tag(kind) + "></div>"@;
    assert(vstd::utf8::is_ascii_chars(tail));
    lemma_ascii_shown(head, text);
    lemma_ascii_shown(tail, text);
    lemma_body_shown(text, kind);
    let body = horizontal_body(text, kind);
    lemma_shown_concat(head, body, text);
    lemma_shown_concat(head + body, tail, text);
    assert(horizontal_html(text, kind, mode) =~= head + body + tail);
}

proof fn lemma_root_ascii(options: RenderOptions)
    ensures
        vstd::utf8::is_ascii_chars(root_open(options)),
{
    reveal_strlit("<div class=\"");
    reveal_strlit("vertext");
    reveal_strlit(" vertext-code");
    reveal_strlit(" vertext-page");
    reveal_strlit("\" data-column-advance=\"");
    reveal_strlit("left");
    reveal_strlit("right");
    reveal_strlit("\" style=\"--vertext-latin-cap-prose:");
    reveal_strlit("ch;--vertext-latin-cap-code:");
    reveal_strlit("ch\">");
    lemma_decimal_ascii(PROSE_LATIN_CAP as nat);
    lemma_decimal_ascii(CODE_LATIN_CAP as nat);
    assert(vstd::utf8::is_ascii_chars(root_class(options)));
    assert(vstd::utf8::is_ascii_chars(advance_word(options.progression)));
}


proof fn lemma_split_within(s: Seq<char>, sep: char)
    ensures
        forall|i: int| 0 <= i < split_on(s, sep).len() ==> crate::layout::chars_within(
            #[trigger] split_on(s, sep)[i],
            s,
        ),
    decreases s.len(),
{
    if s.len() > 0 {
        let p = s.drop_last();
        lemma_split_within(p, sep);
        lemma_split_on_len(p, sep);
        let prev = split_on(p, sep);
        let cur = split_on(s, sep);
        assert forall|i: int| 0 <= i < cur.len() implies crate::layout::chars_within(
            #[trigger] cur[i],
            s,
        ) by {
            assert forall|k: int| 0 <= k < cur[i].len() implies s.contains(#[trigger] cur[i][k]) by {
                if i < prev.len() && (s.last() == sep || i < prev.len() - 1) {
                    assert(cur[i] == prev[i]);
                    assert(p.contains(prev[i][k]));
                    let x = choose|x: int| 0 <= x < p.len() && p[x] == prev[i][k];
                    assert(s[x] == p[x]);
                } else if s.last() == sep {
                    assert(cur[i].len() == 0);
                } else {
                    assert(i == prev.len() - 1);
                    assert(cur[i] == prev.last().push(s.last()));
                    if k < prev.last().len() {
                        assert(cur[i][k] == prev[i][k]);
                        assert(p.contains(prev[i][k]));
                        let x = choose|x: int| 0 <= x < p.len() && p[x] == prev[i][k];
                        assert(s[x] == p[x]);
                    } else {
                        assert(cur[i][k] == s[s.len() - 1]);
                    }
                }
            }
        }
    }
}

proof fn lemma_shown_within_widen(t: Seq<char>, a: Seq<char>, b: Seq<char>)
    requires
        crate::layout::shown_within(t, a),
        crate::layout::chars_within(a, b),
    ensures
        crate::layout::shown_within(t, b),
{
    assert forall|k: int| 0 <= k < t.len() implies #[trigger] t[k] == crate::layout::INSERTED_HYPHEN
        || b.contains(t[k]) by {
        if t[k] != crate::layout::INSERTED_HYPHEN {
            let x = choose|x: int| 0 <= x < a.len() && a[x] == t[k];
            assert(b.contains(a[x]));
        }
    }
}

/// One cell of a table.
pub open spec fn cell_html(cell: Seq<char>, header: bool, config: LayoutConfig) -> Seq<char> {
    "<"@ + cell_tag(header) + " class=\"vertext-cell\">"@ + columns_html(
        laid_out(cell, config),
        "vertext-column vertext-column-cell"@,
    ) + "</"@ + cell_tag(header) + ">"@
}

proof fn lemma_cell_shown(cell: Seq<char>, header: bool, config: LayoutConfig, row: Seq<char>)
    requires
        crate::layout::chars_within(cell, row),
        forall|c: int, j: int|
            0 <= c < laid_out(cell, config).len() && 0 <= j < laid_out(cell, config)[c].len()
                ==> crate::layout::shown_within((#[trigger] laid_out(cell, config)[c][j]).1, cell),
    ensures
        all_shown_from(cell_html(cell, header, config), row),
{
    let cols = laid_out(cell, config);
    assert forall|c: int, j: int| 0 <= c < cols.len() && 0 <= j < cols[c].len() implies crate::layout::shown_within(
        (#[trigger] cols[c][j]).1,
        row,
    ) by {
        lemma_shown_within_widen(cols[c][j].1, cell, row);
    }
    reveal_strlit("vertext-column vertext-column-cell");
    reveal_strlit("<");
    reveal_strlit(" class=\"vertext-cell\">");
    reveal_strlit("</");
    reveal_strlit(">");
    reveal_strlit("th");
    reveal_strlit("td");
    lemma_columns_html_shown(cols, "vertext-column vertext-column-cell"@, row);
    let head = "<"@ + cell_tag(header) + " class=\"vertext-cell\">"@;
    let tail = "</"@ + cell_tag(header) + ">"@;
    assert(vstd::utf8::is_ascii_chars(cell_tag(header)));
    assert(vstd::utf8::is_ascii_chars(head));
    assert(vstd::utf8::is_ascii_chars(tail));
    lemma_ascii_shown(head, row);
    lemma_ascii_shown(tail, row);
    lemma_shown_concat(head, columns_html(cols, "vertext-column vertext-column-cell"@), row);
    lemma_shown_concat(head + columns_html(cols, "vertext-column vertext-column-cell"@), tail, row);
    assert(cell_html(cell, header, config) =~= head + columns_html(
        cols,
        "vertext-column vertext-column-cell"@,
    ) + tail);
}

proof fn lemma_row_shown(row: Seq<char>, header: bool, config: LayoutConfig, text: Seq<char>)
    requires
        crate::layout::chars_within(row, text),
        row.len() > 0 ==> all_shown_from(cells_html(split_on(row, CELL_SEP), header, config), row),
    ensures
        all_shown_from(row_html(row, header, config), text),
{
    if row.len() > 0 {
        reveal_strlit("<thead><tr class=\"vertext-row vertext-row-header\">");
        reveal_strlit("<tr class=\"vertext-row\">");
        reveal_strlit("</tr></thead><tbody>");
        reveal_strlit("</tr>");
        let cells = cells_html(split_on(row, CELL_SEP), header, config);
        lemma_shown_widen(cells, row, text);
        assert(vstd::utf8::is_ascii_chars(row_open(header)));
        assert(vstd::utf8::is_ascii_chars(row_close(header)));
        lemma_ascii_shown(row_open(header), text);
        lemma_ascii_shown(row_close(header), text);
        lemma_shown_concat(row_open(header), cells, text);
        lemma_shown_concat(row_open(header) + cells, row_close(header), text);
    } else {
        assert(row_html(row, header, config) =~= Seq::<char>::empty());
    }
}


proof fn lemma_vertical_shown(trimmed: Seq<char>, mode: Mode, blank: bool, progression: Progression)
    requires
        forall|c: int, j: int|
            0 <= c < laid_out(trimmed, mode_config(mode, progression)).len() && 0 <= j < laid_out(
                trimmed,
                mode_config(mode, progression),
            )[c].len() ==> crate::layout::shown_within(
                (#[trigger] laid_out(trimmed, mode_config(mode, progression))[c][j]).1,
                trimmed,
            ),
    ensures
        all_shown_from(block_html(BlockKind::Vertical, mode, trimmed, blank, progression), trimmed),
{
    let cols = laid_out(trimmed, mode_config(mode, progression));
    let class = mode_column_class(mode);
    lemma_column_class_ascii(mode);
    lemma_columns_html_shown(cols, class, trimmed);
    reveal_strlit("<div class=\"");
    reveal_strlit("\"></div>");
    let extra = if blank {
        "<div class=\""@ + class + "\"></div>"@
    } else {
        Seq::empty()
    };
    assert(vstd::utf8::is_ascii_chars(extra));
    lemma_ascii_shown(extra, trimmed);
    lemma_shown_concat(columns_html(cols, class), extra, trimmed);
}


proof fn lemma_chars_within_trans(a: Seq<char>, b: Seq<char>, c: Seq<char>)
    requires
        crate::layout::chars_within(a, b),
        crate::layout::chars_within(b, c),
    ensures
        crate::layout::chars_within(a, c),
{
    assert forall|k: int| 0 <= k < a.len() implies c.contains(#[trigger] a[k]) by {
        let x = choose|x: int| 0 <= x < b.len() && b[x] == a[k];
        assert(c.contains(b[x]));
    }
}

proof fn lemma_trim_within(s: Seq<char>)
    ensures
        crate::layout::chars_within(trim_newlines(s), s),
    decreases s.len(),
{
    if s.len() > 0 && s.last() == '\n' {
        lemma_trim_within(s.drop_last());
        assert forall|k: int| 0 <= k < s.drop_last().len() implies s.contains(
            #[trigger] s.drop_last()[k],
        ) by {
            assert(s[k] == s.drop_last()[k]);
        }
        lemma_chars_within_trans(trim_newlines(s.drop_last()), s.drop_last(), s);
    } else {
        assert forall|k: int| 0 <= k < s.len() implies s.contains(#[trigger] s[k]) by {}
    }
}

proof fn lemma_segment_texts_within(segs: Seq<(Mode, Seq<char>)>)
    ensures
        forall|i: int| 0 <= i < segs.len() ==> crate::layout::chars_within(
            #[trigger] segs[i].1,
            segment_texts(segs),
        ),
    decreases segs.len(),
{
    if segs.len() > 0 {
        let p = segs.drop_last();
        lemma_segment_texts_within(p);
        let all = segment_texts(segs);
        let pre = segment_texts(p);
        assert forall|i: int| 0 <= i < segs.len() implies crate::layout::chars_within(
            #[trigger] segs[i].1,
            all,
        ) by {
            assert forall|k: int| 0 <= k < segs[i].1.len() implies all.contains(#[trigger] segs[i].1[k]) by {
                if i < segs.len() - 1 {
                    assert(segs[i] == p[i]);
                    assert(pre.contains(p[i].1[k]));
                    let x = choose|x: int| 0 <= x < pre.len() && pre[x] == p[i].1[k];
                    assert(all[x] == pre[x]);
                } else {
                    assert(all[pre.len() + k] == segs.last().1[k]);
                }
            }
        }
    }
}

/// Every segment's text is made of characters of the input, and holds no marker unless the
/// whole strip is code.
proof fn lemma_segments_within(input: Seq<char>, whole_strip_code: bool)
    ensures
        forall|i: int| 0 <= i < segments_of(input, whole_strip_code).len() ==> crate::layout::chars_within(
            #[trigger] segments_of(input, whole_strip_code)[i].1,
            if whole_strip_code {
                input
            } else {
                unmarked(input)
            },
        ),
{
    let segs = segments_of(input, whole_strip_code);
    if whole_strip_code {
        assert forall|i: int| 0 <= i < segs.len() implies crate::layout::chars_within(
            #[trigger] segs[i].1,
            input,
        ) by {
            assert(segs[i].1 == input);
            assert forall|k: int| 0 <= k < input.len() implies input.contains(#[trigger] input[k]) by {}
        }
    } else {
        segments_keep_all_but_the_markers(input);
        lemma_segment_texts_within(segs);
    }
}

/// The input without its markers holds plain characters of the input only.
proof fn lemma_unmarked_facts(text: Seq<char>)
    ensures
        forall|k: int|
            0 <= k < unmarked(text).len() ==> is_plain(#[trigger] unmarked(text)[k])
                && text.contains(unmarked(text)[k]),
    decreases text.len(),
{
    reveal(Seq::filter);
    if text.len() > 0 {
        let p = text.drop_last();
        lemma_unmarked_facts(p);
        let c = text.last();
        let f = unmarked(text);
        let fp = unmarked(p);
        assert(f == if is_plain(c) {
            fp.push(c)
        } else {
            fp
        });
        assert forall|k: int| 0 <= k < f.len() implies is_plain(#[trigger] f[k]) && text.contains(f[k]) by {
            if k < fp.len() {
                assert(f[k] == fp[k]);
                assert(p.contains(fp[k]));
                let x = choose|x: int| 0 <= x < p.len() && p[x] == fp[k];
                assert(text[x] == p[x]);
            } else {
                assert(f[k] == c);
                assert(text[text.len() - 1] == c);
            }
        }
    }
}


proof fn lemma_plain_char(ch: char)
    requires
        ch <= '\u{7f}' || ch == crate::layout::INSERTED_HYPHEN,
    ensures
        is_plain(ch),
{
}

/// What the renderer writes is ASCII markup, the inserted hyphen, or the input's own characters;
/// and, unless the whole strip is code, never a marker.
proof fn lemma_document_chars(html: Seq<char>, input: Seq<char>, options: RenderOptions)
    requires
        all_shown_from(
            html,
            if options.whole_strip_code {
                input
            } else {
                unmarked(input)
            },
        ),
    ensures
        forall|k: int|
            0 <= k < html.len() ==> #[trigger] html[k] <= '\u{7f}' || html[k]
                == crate::layout::INSERTED_HYPHEN || input.contains(html[k]),
        !options.whole_strip_code ==> forall|k: int| 0 <= k < html.len() ==> is_plain(#[trigger] html[k]),
{
    let u = if options.whole_strip_code {
        input
    } else {
        unmarked(input)
    };
    lemma_unmarked_facts(input);
    assert forall|k: int| 0 <= k < html.len() implies #[trigger] html[k] <= '\u{7f}' || html[k]
        == crate::layout::INSERTED_HYPHEN || input.contains(html[k]) by {
        assert(shown_from(html[k], u));
        if !(html[k] <= '\u{7f}') && html[k] != crate::layout::INSERTED_HYPHEN
            && !options.whole_strip_code {
            let x = choose|x: int| 0 <= x < u.len() && u[x] == html[k];
            assert(input.contains(u[x]));
        }
    }
    if !options.whole_strip_code {
        assert forall|k: int| 0 <= k < html.len() implies is_plain(#[trigger] html[k]) by {
            assert(shown_from(html[k], u));
            if !(html[k] <= '\u{7f}') && html[k] != crate::layout::INSERTED_HYPHEN {
                let x = choose|x: int| 0 <= x < u.len() && u[x] == html[k];
                assert(is_plain(u[x]));
            } else {
                lemma_plain_char(html[k]);
            }
        }
    }
}


proof fn lemma_cells_step(cs: Seq<Seq<char>>, i: int, header: bool, config: LayoutConfig, row: Seq<char>)
    requires
        0 <= i < cs.len(),
        all_shown_from(cells_html(cs.take(i), header, config), row),
        crate::layout::chars_within(cs[i], row),
        forall|c: int, j: int|
            0 <= c < laid_out(cs[i], config).len() && 0 <= j < laid_out(cs[i], config)[c].len()
                ==> crate::layout::shown_within((#[trigger] laid_out(cs[i], config)[c][j]).1, cs[i]),
    ensures
        cells_html(cs.take(i + 1), header, config) == cells_html(cs.take(i), header, config)
            + cell_html(cs[i], header, config),
        all_shown_from(cells_html(cs.take(i + 1), header, config), row),
{
    assert(cs.take(i + 1).drop_last() =~= cs.take(i));
    assert(cs.take(i + 1).last() == cs[i]);
    assert(cells_html(cs.take(i + 1), header, config) =~= cells_html(cs.take(i), header, config)
        + cell_html(cs[i], header, config));
    lemma_cell_shown(cs[i], header, config, row);
    lemma_shown_concat(cells_html(cs.take(i), header, config), cell_html(cs[i], header, config), row);
}

// ---------------------------------------------------------------------------------------------
// A table shows only its text's own characters.
// ---------------------------------------------------------------------------------------------

/// Every character of `s` is ASCII markup or a character of `text`: no hyphen that `text` does
/// not hold.
pub open spec fn html_within(s: Seq<char>, text: Seq<char>) -> bool {
    forall|k: int| 0 <= k < s.len() ==> #[trigger] s[k] <= '\u{7f}' || text.contains(s[k])
}

proof fn lemma_within_concat(a: Seq<char>, b: Seq<char>, t: Seq<char>)
    requires
        html_within(a, t),
        html_within(b, t),
    ensures
        html_within(a + b, t),
{
    assert forall|k: int| 0 <= k < (a + b).len() implies #[trigger] (a + b)[k] <= '\u{7f}' || t.contains(
        (a + b)[k],
    ) by {
        if k < a.len() {
            assert((a + b)[k] == a[k]);
        } else {
            assert((a + b)[k] == b[k - a.len()]);
        }
    }
}

proof fn lemma_within_widen(s: Seq<char>, t: Seq<char>, u: Seq<char>)
    requires
        html_within(s, t),
        crate::layout::chars_within(t, u),
    ensures
        html_within(s, u),
{
    assert forall|k: int| 0 <= k < s.len() implies #[trigger] s[k] <= '\u{7f}' || u.contains(s[k]) by {
        if !(s[k] <= '\u{7f}') {
            let x = choose|x: int| 0 <= x < t.len() && t[x] == s[k];
            assert(u.contains(t[x]));
        }
    }
}

proof fn lemma_escaped_within(text: Seq<char>)
    ensures
        html_within(escaped(text), text),
    decreases text.len(),
{
    if text.len() > 0 {
        reveal_strlit("&amp;");
        reveal_strlit("&lt;");
        reveal_strlit("&gt;");
        reveal_strlit("&quot;");
        lemma_escaped_within(text.drop_last());
        let c = text.last();
        assert(text[text.len() - 1] == c);
        assert forall|k: int| 0 <= k < text.drop_last().len() implies text.contains(
            #[trigger] text.drop_last()[k],
        ) by {
            assert(text[k] == text.drop_last()[k]);
        }
        lemma_within_widen(escaped(text.drop_last()), text.drop_last(), text);
        assert(html_within(escape_char(c), text));
        lemma_within_concat(escaped(text.drop_last()), escape_char(c), text);
    }
}

proof fn lemma_slots_html_within(slots: Seq<(SlotKind, Seq<char>)>, t: Seq<char>)
    requires
        forall|j: int| 0 <= j < slots.len() ==> crate::layout::chars_within((#[trigger] slots[j]).1, t),
    ensures
        html_within(slots_html(slots), t),
    decreases slots.len(),
{
    if slots.len() > 0 {
        assert forall|j: int| 0 <= j < slots.drop_last().len() implies crate::layout::chars_within(
            (#[trigger] slots.drop_last()[j]).1,
            t,
        ) by {
            assert(slots.drop_last()[j] == slots[j]);
        }
        lemma_slots_html_within(slots.drop_last(), t);
        let s = slots.last();
        assert(crate::layout::chars_within(slots[slots.len() - 1].1, t));
        reveal_strlit("<span class=\"");
        reveal_strlit("\">");
        reveal_strlit("</span>");
        lemma_kind_class_ascii(s.0);
        lemma_escaped_within(s.1);
        lemma_within_widen(escaped(s.1), s.1, t);
        let open = "<span class=\""@;
        let mid = "\">"@;
        let close = "</span>"@;
        assert(html_within(open, t) && html_within(kind_class(s.0), t) && html_within(mid, t)
            && html_within(close, t));
        lemma_within_concat(open, kind_class(s.0), t);
        lemma_within_concat(open + kind_class(s.0), mid, t);
        lemma_within_concat(open + kind_class(s.0) + mid, escaped(s.1), t);
        lemma_within_concat(open + kind_class(s.0) + mid + escaped(s.1), close, t);
        lemma_within_concat(slots_html(slots.drop_last()), slot_html(s), t);
    }
}

proof fn lemma_columns_html_within(cols: Seq<Seq<(SlotKind, Seq<char>)>>, class: Seq<char>, t: Seq<char>)
    requires
        vstd::utf8::is_ascii_chars(class),
        forall|c: int, j: int|
            0 <= c < cols.len() && 0 <= j < cols[c].len() ==> crate::layout::chars_within(
                (#[trigger] cols[c][j]).1,
                t,
            ),
    ensures
        html_within(columns_html(cols, class), t),
    decreases cols.len(),
{
    if cols.len() > 0 {
        let p = cols.drop_last();
        assert forall|c: int, j: int| 0 <= c < p.len() && 0 <= j < p[c].len() implies crate::layout::chars_within(
            (#[trigger] p[c][j]).1,
            t,
        ) by {
            assert(p[c] == cols[c]);
        }
        lemma_columns_html_within(p, class, t);
        let last = cols.last();
        assert forall|j: int| 0 <= j < last.len() implies crate::layout::chars_within(
            (#[trigger] last[j]).1,
            t,
        ) by {
            assert(last == cols[cols.len() - 1]);
        }
        lemma_slots_html_within(last, t);
        reveal_strlit("<div class=\"");
        reveal_strlit("\">");
        reveal_strlit("</div>");
        let open = "<div class=\""@;
        let mid = "\">"@;
        let close = "</div>"@;
        assert(html_within(open, t) && html_within(class, t) && html_within(mid, t) && html_within(
            close,
            t,
        ));
        let a = columns_html(p, class);
        lemma_within_concat(a, open, t);
        lemma_within_concat(a + open, class, t);
        lemma_within_concat(a + open + class, mid, t);
        lemma_within_concat(a + open + class + mid, slots_html(last), t);
        lemma_within_concat(a + open + class + mid + slots_html(last), close, t);
    }
}

/// A cell laid out with no inserted hyphen shows only its row's characters and ASCII markup.
proof fn lemma_cell_within(cell: Seq<char>, header: bool, config: LayoutConfig, row: Seq<char>)
    requires
        crate::layout::chars_within(cell, row),
        no_inserted_hyphen(model_of(cell, config).columns),
        forall|c: int, j: int|
            0 <= c < model_of(cell, config).columns.len() && 0 <= j < model_of(cell, config).columns[c].len()
                ==> crate::layout::chars_within((#[trigger] model_of(cell, config).columns[c][j]).source, cell),
    ensures
        html_within(cell_html(cell, header, config), row),
{
    let mc = model_of(cell, config).columns;
    let cols = laid_out(cell, config);
    assert forall|c: int, j: int| 0 <= c < cols.len() && 0 <= j < cols[c].len() implies crate::layout::chars_within(
        (#[trigger] cols[c][j]).1,
        row,
    ) by {
        let m = mc[c][j];
        assert(cols[c] == crate::layout::shown_slots(mc[c]));
        assert(cols[c][j] == crate::layout::shown(m));
        assert(!m.hyphen);
        assert(cols[c][j].1 == m.source);
        assert(crate::layout::chars_within(m.source, cell));
        assert forall|k: int| 0 <= k < m.source.len() implies row.contains(#[trigger] m.source[k]) by {
            let x = choose|x: int| 0 <= x < cell.len() && cell[x] == m.source[k];
            assert(row.contains(cell[x]));
        }
    }
    reveal_strlit("vertext-column vertext-column-cell");
    reveal_strlit("<");
    reveal_strlit(" class=\"vertext-cell\">");
    reveal_strlit("</");
    reveal_strlit(">");
    reveal_strlit("th");
    reveal_strlit("td");
    lemma_columns_html_within(cols, "vertext-column vertext-column-cell"@, row);
    let head = "<"@ + cell_tag(header) + " class=\"vertext-cell\">"@;
    let tail = "</"@ + cell_tag(header) + ">"@;
    assert(vstd::utf8::is_ascii_chars(cell_tag(header)));
    assert(vstd::utf8::is_ascii_chars(head));
    assert(vstd::utf8::is_ascii_chars(tail));
    lemma_within_concat(head, columns_html(cols, "vertext-column vertext-column-cell"@), row);
    lemma_within_concat(head + columns_html(cols, "vertext-column vertext-column-cell"@), tail, row);
    assert(cell_html(cell, header, config) =~= head + columns_html(
        cols,
        "vertext-column vertext-column-cell"@,
    ) + tail);
}

proof fn lemma_row_within(row: Seq<char>, header: bool, config: LayoutConfig, text: Seq<char>)
    requires
        crate::layout::chars_within(row, text),
        row.len() > 0 ==> html_within(cells_html(split_on(row, CELL_SEP), header, config), row),
    ensures
        html_within(row_html(row, header, config), text),
{
    if row.len() > 0 {
        reveal_strlit("<thead><tr class=\"vertext-row vertext-row-header\">");
        reveal_strlit("<tr class=\"vertext-row\">");
        reveal_strlit("</tr></thead><tbody>");
        reveal_strlit("</tr>");
        let cells = cells_html(split_on(row, CELL_SEP), header, config);
        lemma_within_widen(cells, row, text);
        assert(vstd::utf8::is_ascii_chars(row_open(header)));
        assert(vstd::utf8::is_ascii_chars(row_close(header)));
        lemma_within_concat(row_open(header), cells, text);
        lemma_within_concat(row_open(header) + cells, row_close(header), text);
    } else {
        assert(row_html(row, header, config) =~= Seq::<char>::empty());
    }
}

} // verus!
