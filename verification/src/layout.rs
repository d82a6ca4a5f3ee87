//! The layout engine: text in, columns of slots out, top to bottom.

use crate::text::{
    is_line_break_char, is_line_break_cluster, line_breaks_apart, chars_of, concat_all, grapheme_clusters, graphemes, has_vertical_form, is_cjk,
    is_corner_punctuation, is_mongolian, is_suffix_separator, is_white_space, is_word_char,
    is_word_connector,
    partitions, spec_has_vertical_form, spec_is_cjk, spec_is_corner_punctuation, spec_is_mongolian,
    spec_is_suffix_separator, spec_is_white_space, spec_is_word_char, spec_is_word_connector,
    string_views, word_clusters_dash_free,
};
use vstd::prelude::*;
use vstd::string::StrSliceExecFns;
use vstd::string::StringExecFns;

verus! {

/// The hard hyphen the layout appends to a piece of a long word it had to break itself.
pub const INSERTED_HYPHEN: char = '\u{2010}';

/// Which way successive columns advance. A property of the script: CJK advances right to left,
/// traditional Mongolian left to right.
#[derive(Clone, Copy, Debug, PartialEq, Eq, Structural)]
pub enum Progression {
    /// `vertical-rl`: `columns[0]` is the rightmost column (CJK).
    RightToLeft,
    /// `vertical-lr`: `columns[0]` is the leftmost column (Mongolian).
    LeftToRight,
}

#[derive(Clone, Debug, PartialEq, Eq)]
pub struct LayoutConfig {
    /// Maximum number of grapheme clusters in an upright Latin word slot.
    pub max_latin_word_width: usize,
    /// Code mode retains each source space as an empty vertical row.
    pub preserve_spaces: bool,
    /// Column advance direction, carried onto the produced layout.
    pub progression: Progression,
}

impl Default for LayoutConfig {
    fn default() -> (config: Self)
        ensures
            config.max_latin_word_width == 12,
            !config.preserve_spaces,
            config.progression == Progression::RightToLeft,
    {
        LayoutConfig {
            max_latin_word_width: 12,
            preserve_spaces: false,
            progression: Progression::RightToLeft,
        }
    }
}

/// One unit of a column.
#[derive(Clone, Debug, PartialEq, Eq)]
pub enum Slot {
    /// An upright ideograph, kana, or hangul grapheme cluster.
    Upright(String),
    /// One horizontally readable Latin word (or a piece of a long one).
    LatinWord(String),
    /// A run of Mongolian kept whole so that the font can join it.
    MongolianRun(String),
    /// Whitespace from the source, carried through verbatim.
    Space(String),
    /// Punctuation that turns a quarter-circle in vertical text.
    VerticalPunctuation(String),
    /// A stop or comma, which moves to the corner of its em square.
    CornerPunctuation(String),
    /// Anything else, upright.
    Neutral(String),
}

/// The kind of a slot, without its text.
#[derive(Clone, Copy, Debug, PartialEq, Eq, Structural)]
pub enum SlotKind {
    Upright,
    LatinWord,
    MongolianRun,
    Space,
    VerticalPunctuation,
    CornerPunctuation,
    Neutral,
}

impl View for Slot {
    type V = (SlotKind, Seq<char>);

    open spec fn view(&self) -> (SlotKind, Seq<char>) {
        match self {
            Slot::Upright(s) => (SlotKind::Upright, s@),
            Slot::LatinWord(s) => (SlotKind::LatinWord, s@),
            Slot::MongolianRun(s) => (SlotKind::MongolianRun, s@),
            Slot::Space(s) => (SlotKind::Space, s@),
            Slot::VerticalPunctuation(s) => (SlotKind::VerticalPunctuation, s@),
            Slot::CornerPunctuation(s) => (SlotKind::CornerPunctuation, s@),
            Slot::Neutral(s) => (SlotKind::Neutral, s@),
        }
    }
}

/// Builds the slot of kind `kind` showing `text`.
pub fn make_slot(kind: SlotKind, text: String) -> (slot: Slot)
    ensures
        slot@ == (kind, text@),
{
    match kind {
        SlotKind::Upright => Slot::Upright(text),
        SlotKind::LatinWord => Slot::LatinWord(text),
        SlotKind::MongolianRun => Slot::MongolianRun(text),
        SlotKind::Space => Slot::Space(text),
        SlotKind::VerticalPunctuation => Slot::VerticalPunctuation(text),
        SlotKind::CornerPunctuation => Slot::CornerPunctuation(text),
        SlotKind::Neutral => Slot::Neutral(text),
    }
}

#[derive(Clone, Debug, PartialEq, Eq)]
pub struct Column {
    pub slots: Vec<Slot>,
}

#[derive(Clone, Debug, PartialEq, Eq)]
pub struct Layout {
    /// Columns in source order; `progression` says which side `columns[0]` sits on.
    pub columns: Vec<Column>,
    /// Column advance direction.
    pub progression: Progression,
}

pub open spec fn slots_view(slots: Seq<Slot>) -> Seq<(SlotKind, Seq<char>)> {
    slots.map_values(|s: Slot| s@)
}

pub open spec fn columns_view(columns: Seq<Column>) -> Seq<Seq<(SlotKind, Seq<char>)>> {
    columns.map_values(|c: Column| slots_view(c.slots@))
}

impl Layout {
    /// The slots of every column, as kinds and texts.
    pub open spec fn slots_of(&self) -> Seq<Seq<(SlotKind, Seq<char>)>> {
        columns_view(self.columns@)
    }
}

// ---------------------------------------------------------------------------------------------
// The model of a layout.
// ---------------------------------------------------------------------------------------------

/// A slot as the model keeps it: its kind, the source characters it stands for, and whether the
/// layout appended a hard hyphen of its own after them.
pub struct SlotModel {
    pub kind: SlotKind,
    pub source: Seq<char>,
    pub hyphen: bool,
}

/// What a slot shows: its source, followed by the inserted hyphen if the layout added one.
pub open spec fn shown_text(source: Seq<char>, hyphen: bool) -> Seq<char> {
    if hyphen {
        source.push(INSERTED_HYPHEN)
    } else {
        source
    }
}

pub open spec fn shown(m: SlotModel) -> (SlotKind, Seq<char>) {
    (m.kind, shown_text(m.source, m.hyphen))
}

pub open spec fn shown_slots(ms: Seq<SlotModel>) -> Seq<(SlotKind, Seq<char>)> {
    ms.map_values(|m: SlotModel| shown(m))
}

pub open spec fn shown_columns(cols: Seq<Seq<SlotModel>>) -> Seq<Seq<(SlotKind, Seq<char>)>> {
    cols.map_values(|c: Seq<SlotModel>| shown_slots(c))
}

/// The source characters of a run of slots, one after another.
pub open spec fn slots_source(ms: Seq<SlotModel>) -> Seq<char>
    decreases ms.len(),
{
    if ms.len() == 0 {
        Seq::empty()
    } else {
        slots_source(ms.drop_last()) + ms.last().source
    }
}

/// A cluster that is a hyphen the author typed, where a long word may break: exactly `-` or
/// U+2010, with nothing riding on it.
pub open spec fn is_hyphen_cluster(c: Seq<char>) -> bool {
    c == seq!['-'] || c == seq![INSERTED_HYPHEN]
}

/// The rightmost hyphen among the first `n` clusters.
pub open spec fn last_hyphen_before(cs: Seq<Seq<char>>, n: int) -> Option<int>
    decreases n,
{
    if n <= 0 {
        None
    } else if is_hyphen_cluster(cs[n - 1]) {
        Some(n - 1)
    } else {
        last_hyphen_before(cs, n - 1)
    }
}

pub open spec fn clamp_limit(limit: nat) -> nat {
    if limit < 2 {
        2
    } else {
        limit
    }
}

/// Where a word of more than `limit` clusters breaks, and whether the break needs a hyphen of
/// the layout's own: after the rightmost hyphen that fits, or else after `limit - 1` clusters.
pub open spec fn split_point(cs: Seq<Seq<char>>, limit: nat) -> (int, bool) {
    match last_hyphen_before(cs, limit as int) {
        Some(i) => if i + 1 < cs.len() {
            (i + 1, false)
        } else {
            (limit - 1, true)
        },
        None => (limit - 1, true),
    }
}

/// The pieces a Latin word is set in, each with whether it ends in an inserted hyphen.
///
/// The word is cut on the grapheme clusters of `unicode-segmentation`. (The guard on
/// `partitions` only keeps the definition total: those clusters always cut the word.)
pub open spec fn split_pieces(word: Seq<char>, limit: nat) -> Seq<(Seq<char>, bool)>
    decreases word.len(),
{
    let limit = clamp_limit(limit);
    let cs = grapheme_clusters(word);
    if word.len() <= limit || cs.len() <= limit || !partitions(cs, word) {
        seq![(word, false)]
    } else {
        let (split, mark) = split_point(cs, limit);
        let head = concat_all(cs.subrange(0, split));
        let tail = concat_all(cs.subrange(split, cs.len() as int));
        if tail.len() < word.len() {
            seq![(head, mark)] + split_pieces(tail, limit)
        } else {
            seq![(word, false)]
        }
    }
}

pub open spec fn piece_text(p: (Seq<char>, bool)) -> Seq<char> {
    shown_text(p.0, p.1)
}

// ---------------------------------------------------------------------------------------------
// Lemmas on concatenation.
// ---------------------------------------------------------------------------------------------

pub proof fn lemma_concat_all_append(a: Seq<Seq<char>>, b: Seq<Seq<char>>)
    ensures
        concat_all(a + b) == concat_all(a) + concat_all(b),
    decreases b.len(),
{
    if b.len() == 0 {
        assert(a + b =~= a);
    } else {
        lemma_concat_all_append(a, b.drop_last());
        assert((a + b).drop_last() =~= a + b.drop_last());
    }
}

pub proof fn lemma_concat_all_split(cs: Seq<Seq<char>>, k: int)
    requires
        0 <= k <= cs.len(),
    ensures
        concat_all(cs) == concat_all(cs.subrange(0, k)) + concat_all(cs.subrange(k, cs.len() as int)),
{
    lemma_concat_all_append(cs.subrange(0, k), cs.subrange(k, cs.len() as int));
    assert(cs.subrange(0, k) + cs.subrange(k, cs.len() as int) =~= cs);
}

pub proof fn lemma_concat_all_len_positive(cs: Seq<Seq<char>>)
    requires
        cs.len() > 0,
        forall|i: int| 0 <= i < cs.len() ==> (#[trigger] cs[i]).len() > 0,
    ensures
        concat_all(cs).len() > 0,
    decreases cs.len(),
{
}

pub proof fn lemma_concat_all_step(cs: Seq<Seq<char>>, i: int)
    requires
        0 <= i < cs.len(),
    ensures
        concat_all(cs.subrange(0, i + 1)) == concat_all(cs.subrange(0, i)) + cs[i],
{
    assert(cs.subrange(0, i + 1).drop_last() =~= cs.subrange(0, i));
}

pub proof fn lemma_concat_all_step_from(cs: Seq<Seq<char>>, k: int, i: int)
    requires
        0 <= k <= i < cs.len(),
    ensures
        concat_all(cs.subrange(k, i + 1)) == concat_all(cs.subrange(k, i)) + cs[i],
{
    assert(cs.subrange(k, i + 1).drop_last() =~= cs.subrange(k, i));
}

// ---------------------------------------------------------------------------------------------
// Splitting a long Latin word.
// ---------------------------------------------------------------------------------------------

fn is_hyphen_text(cluster: &str) -> (r: bool)
    ensures
        r == is_hyphen_cluster(cluster@),
{
    if cluster.unicode_len() != 1 {
        return false;
    }
    let c = cluster.get_char(0);
    let r = c == '-' || c == '\u{2010}';
    proof {
        if r {
            if c == '-' {
                assert(cluster@ =~= seq!['-']);
            } else {
                assert(cluster@ =~= seq![INSERTED_HYPHEN]);
            }
        }
    }
    r
}

/// Joins `clusters[from..to]` into one string.
fn join_clusters(clusters: &Vec<String>, from: usize, to: usize) -> (joined: String)
    requires
        from <= to <= clusters@.len(),
    ensures
        joined@ == concat_all(string_views(clusters@).subrange(from as int, to as int)),
{
    let ghost cs = string_views(clusters@);
    let mut joined = String::new();
    let mut i = from;
    assert(cs.subrange(from as int, from as int) =~= Seq::<Seq<char>>::empty());
    while i < to
        invariant
            from <= i <= to <= clusters@.len(),
            cs == string_views(clusters@),
            joined@ == concat_all(cs.subrange(from as int, i as int)),
        decreases to - i,
    {
        joined.append(clusters[i].as_str());
        proof {
            lemma_concat_all_step_from(cs, from as int, i as int);
        }
        i = i + 1;
    }
    joined
}

/// Splits a Latin word into pieces of at most `limit` grapheme clusters (at least 2), breaking
/// after the rightmost hyphen the author typed that fits, and otherwise after `limit - 1`
/// clusters with an inserted hyphen.
pub fn split_latin_word(word: &str, limit: usize) -> (pieces: Vec<String>)
    ensures
        string_views(pieces@) == split_pieces(word@, limit as nat).map_values(
            |p: (Seq<char>, bool)| piece_text(p),
        ),
    decreases word@.len(),
{
    let limit = if limit < 2 {
        2
    } else {
        limit
    };
    let ghost pieces_spec = split_pieces(word@, limit as nat);
    if word.unicode_len() <= limit {
        // No more clusters than characters: a word this short needs no split.
        let pieces = vec![word.to_owned()];
        assert(string_views(pieces@) =~= pieces_spec.map_values(
            |p: (Seq<char>, bool)| piece_text(p),
        ));
        return pieces;
    }
    let clusters = graphemes(word);
    let ghost cs = string_views(clusters@);
    if clusters.len() <= limit {
        let whole = word.to_owned();
        let pieces = vec![whole];
        assert(string_views(pieces@) =~= pieces_spec.map_values(
            |p: (Seq<char>, bool)| piece_text(p),
        ));
        return pieces;
    }
    // The rightmost hyphen among the first `limit` clusters.

    let mut found: Option<usize> = None;
    let mut j = limit;
    while j > 0 && found.is_none()
        invariant
            j <= limit < clusters@.len(),
            cs == string_views(clusters@),
            found.is_none() ==> last_hyphen_before(cs, limit as int) == last_hyphen_before(
                cs,
                j as int,
            ),
            found matches Some(x) ==> last_hyphen_before(cs, limit as int) == Some(x as int)
                && x < limit,
        decreases j,
    {
        if is_hyphen_text(clusters[j - 1].as_str()) {
            found = Some(j - 1);
        }
        j = j - 1;
    }
    let (split, mark) = match found {
        Some(i) => if i + 1 < clusters.len() {
            (i + 1, false)
        } else {
            (limit - 1, true)
        },
        None => (limit - 1, true),
    };
    assert((split as int, mark) == split_point(cs, limit as nat));
    let mut head = join_clusters(&clusters, 0, split);
    let ghost head_source = head@;
    if mark {
        head.append("\u{2010}");
        proof {
            reveal_strlit("\u{2010}");
            assert(head@ =~= head_source.push(INSERTED_HYPHEN));
        }
    }
    let tail = join_clusters(&clusters, split, clusters.len());
    proof {
        lemma_concat_all_split(cs, split as int);
        lemma_concat_all_len_positive(cs.subrange(0, split as int));
        assert(cs.subrange(0, split as int).len() > 0);
        assert forall|i: int| 0 <= i < cs.subrange(0, split as int).len() implies (
        #[trigger] cs.subrange(0, split as int)[i]).len() > 0 by {
            assert(cs.subrange(0, split as int)[i] == cs[i]);
        }
        lemma_concat_all_len_positive(cs.subrange(0, split as int));
    }
    let mut rest = split_latin_word(tail.as_str(), limit);
    let ghost rest_view = rest@;
    let mut pieces = vec![head];
    pieces.append(&mut rest);
    proof {
        let f = |p: (Seq<char>, bool)| piece_text(p);
        let tail_pieces = split_pieces(tail@, limit as nat);
        assert(pieces_spec == seq![(head_source, mark)] + tail_pieces);
        assert(pieces@ =~= seq![head] + rest_view);
        assert(piece_text((head_source, mark)) == head@);
        let lhs = string_views(pieces@);
        let rhs = pieces_spec.map_values(f);
        assert(string_views(rest_view).len() == rest_view.len());
        assert(tail_pieces.map_values(f).len() == tail_pieces.len());
        assert(lhs.len() == rhs.len());
        assert forall|i: int| 0 <= i < lhs.len() implies lhs[i] == rhs[i] by {
            if i > 0 {
                assert(lhs[i] == string_views(rest_view)[i - 1]);
                assert(rhs[i] == tail_pieces.map_values(f)[i - 1]);
            }
        }
        assert(lhs =~= rhs);
    }
    pieces
}


// ---------------------------------------------------------------------------------------------
// The layout as a machine over grapheme clusters.
// ---------------------------------------------------------------------------------------------

/// A slot with no inserted hyphen.
pub open spec fn plain(kind: SlotKind, source: Seq<char>) -> SlotModel {
    SlotModel { kind, source, hyphen: false }
}

/// The state of the layout between two clusters.
pub struct LayoutState {
    /// The columns so far; the last one is open.
    pub columns: Seq<Seq<SlotModel>>,
    /// The line break that ends each closed column.
    pub breaks: Seq<Seq<char>>,
    /// An open Latin word.
    pub latin: Seq<char>,
    /// An open Mongolian run.
    pub run: Seq<char>,
    /// Connectors waiting to learn whether letters follow them.
    pub pending: Seq<char>,
    /// Whether those connectors may still join a word that follows.
    pub may_join: bool,
    /// A suffix separator waiting to learn whether a suffix follows it.
    pub separator: Seq<char>,
}

pub open spec fn initial_state() -> LayoutState {
    LayoutState {
        columns: seq![Seq::empty()],
        breaks: Seq::empty(),
        latin: Seq::empty(),
        run: Seq::empty(),
        pending: Seq::empty(),
        may_join: true,
        separator: Seq::empty(),
    }
}

pub open spec fn append_slots(cols: Seq<Seq<SlotModel>>, ms: Seq<SlotModel>) -> Seq<
    Seq<SlotModel>,
> {
    cols.update(cols.len() - 1, cols.last() + ms)
}

pub open spec fn push_slot(cols: Seq<Seq<SlotModel>>, m: SlotModel) -> Seq<Seq<SlotModel>> {
    append_slots(cols, seq![m])
}

pub open spec fn latin_slots(word: Seq<char>, cap: nat) -> Seq<SlotModel> {
    split_pieces(word, cap).map_values(
        |p: (Seq<char>, bool)| SlotModel { kind: SlotKind::LatinWord, source: p.0, hyphen: p.1 },
    )
}

/// The first character of a cluster, by which it is classified.
pub open spec fn base_of(c: Seq<char>) -> char {
    if c.len() > 0 {
        c[0]
    } else {
        ' '
    }
}

/// How a connector that joined no word is set.
pub open spec fn connector_kind(base: char) -> SlotKind {
    if spec_is_corner_punctuation(base) {
        SlotKind::CornerPunctuation
    } else if spec_has_vertical_form(base) {
        SlotKind::VerticalPunctuation
    } else {
        SlotKind::Neutral
    }
}

/// Stops, commas and semicolons move to the corner of their square: exactly the ideographic
/// and fullwidth comma, enumeration comma, full stop and semicolon (and their halfwidth and ASCII
/// semicolon kin) are corner punctuation, and a cluster one of them leads is set as
/// `CornerPunctuation`, whether it stands alone or was held back beside a word.
pub proof fn stops_and_commas_go_to_the_corner(c: char)
    ensures
        spec_is_corner_punctuation(c) <==> (c == '，' || c == '、' || c == '。' || c == '．' || c == '｡'
            || c == '､' || c == '；' || c == ';'),
        spec_is_corner_punctuation(c) ==> cluster_kind(c) == SlotKind::CornerPunctuation
            && connector_kind(c) == SlotKind::CornerPunctuation,
{
}

/// How a cluster that is not whitespace, Mongolian, or part of a Latin word is set.
pub open spec fn cluster_kind(base: char) -> SlotKind {
    if spec_is_corner_punctuation(base) {
        SlotKind::CornerPunctuation
    } else if spec_has_vertical_form(base) {
        SlotKind::VerticalPunctuation
    } else if spec_is_cjk(base) {
        SlotKind::Upright
    } else {
        SlotKind::Neutral
    }
}

/// The clusters of held-back connectors. (The guard keeps the definition total: the clusters of
/// `unicode-segmentation` always cut the text.)
pub open spec fn pending_clusters(p: Seq<char>) -> Seq<Seq<char>> {
    if partitions(grapheme_clusters(p), p) {
        grapheme_clusters(p)
    } else {
        seq![p]
    }
}

pub open spec fn pending_slots(p: Seq<char>) -> Seq<SlotModel> {
    pending_clusters(p).map_values(|c: Seq<char>| plain(connector_kind(base_of(c)), c))
}

pub open spec fn after_flush_latin(st: LayoutState, cap: nat) -> LayoutState {
    if st.latin.len() == 0 {
        st
    } else {
        LayoutState {
            columns: append_slots(st.columns, latin_slots(st.latin, cap)),
            latin: Seq::empty(),
            ..st
        }
    }
}

pub open spec fn after_flush_run(st: LayoutState) -> LayoutState {
    if st.run.len() == 0 {
        st
    } else {
        LayoutState {
            columns: push_slot(st.columns, plain(SlotKind::MongolianRun, st.run)),
            run: Seq::empty(),
            ..st
        }
    }
}

pub open spec fn after_flush_pending(st: LayoutState) -> LayoutState {
    if st.pending.len() == 0 {
        st
    } else {
        LayoutState {
            columns: append_slots(st.columns, pending_slots(st.pending)),
            pending: Seq::empty(),
            ..st
        }
    }
}

pub open spec fn after_flush_all(st: LayoutState, cap: nat) -> LayoutState {
    after_flush_pending(after_flush_run(after_flush_latin(st, cap)))
}

pub open spec fn after_push(st: LayoutState, m: SlotModel) -> LayoutState {
    LayoutState { columns: push_slot(st.columns, m), ..st }
}

/// A held-back separator learns from the next cluster's base whether a suffix follows it; if
/// not, the run closes and the separator stands as a space after it.
pub open spec fn settle_separator(st: LayoutState, base: char) -> LayoutState {
    if st.separator.len() > 0 && !spec_is_mongolian(base) {
        LayoutState {
            separator: Seq::empty(),
            ..after_push(after_flush_run(st), plain(SlotKind::Space, st.separator))
        }
    } else {
        st
    }
}

pub open spec fn opener_of(c: char) -> Option<char> {
    if c == ')' {
        Some('(')
    } else if c == ']' {
        Some('[')
    } else if c == '}' {
        Some('{')
    } else if c == '>' {
        Some('<')
    } else {
        None
    }
}

pub open spec fn count_char(s: Seq<char>, c: char) -> nat
    decreases s.len(),
{
    if s.len() == 0 {
        0
    } else {
        count_char(s.drop_last(), c) + if s.last() == c {
            1nat
        } else {
            0nat
        }
    }
}

/// Whether `ch` closes a bracket that `word` holds open.
pub open spec fn spec_closes_open_bracket(ch: char, word: Seq<char>) -> bool {
    match opener_of(ch) {
        Some(o) => count_char(word, o) > count_char(word, ch),
        None => false,
    }
}

/// A closing bracket closes the word that opened it: `)`, `]`, `}` and `>` each complete a word
/// that holds more of its own opener than of itself, and no other word; no other character
/// closes a word.
pub proof fn a_closing_bracket_closes_the_word_that_opened_it(ch: char, w: Seq<char>)
    ensures
        ch == ')' ==> (spec_closes_open_bracket(ch, w) <==> count_char(w, '(') > count_char(w, ')')),
        ch == ']' ==> (spec_closes_open_bracket(ch, w) <==> count_char(w, '[') > count_char(w, ']')),
        ch == '}' ==> (spec_closes_open_bracket(ch, w) <==> count_char(w, '{') > count_char(w, '}')),
        ch == '>' ==> (spec_closes_open_bracket(ch, w) <==> count_char(w, '<') > count_char(w, '>')),
        ch != ')' && ch != ']' && ch != '}' && ch != '>' ==> !spec_closes_open_bracket(ch, w),
{
}

pub open spec fn newline_step(s: LayoutState, cluster: Seq<char>, cap: nat) -> LayoutState {
    let f = after_flush_all(s, cap);
    LayoutState {
        columns: f.columns.push(Seq::empty()),
        breaks: f.breaks.push(cluster),
        may_join: true,
        ..f
    }
}

pub open spec fn space_step(s: LayoutState, cluster: Seq<char>, cap: nat) -> LayoutState {
    LayoutState {
        may_join: true,
        ..after_push(after_flush_all(s, cap), plain(SlotKind::Space, cluster))
    }
}

pub open spec fn mongolian_step(s: LayoutState, cluster: Seq<char>, cap: nat) -> LayoutState {
    let f = after_flush_pending(after_flush_latin(s, cap));
    LayoutState { may_join: false, run: f.run + f.separator + cluster, separator: Seq::empty(), ..f }
}

pub open spec fn word_step(s: LayoutState, cluster: Seq<char>) -> LayoutState {
    let f = after_flush_run(s);
    LayoutState { latin: f.latin + f.pending + cluster, pending: Seq::empty(), may_join: true, ..f }
}

pub open spec fn connector_step(s: LayoutState, cluster: Seq<char>) -> LayoutState {
    if spec_closes_open_bracket(cluster[0], s.latin) {
        LayoutState { latin: s.latin + s.pending + cluster, pending: Seq::empty(), ..s }
    } else {
        LayoutState { pending: s.pending + cluster, ..s }
    }
}

pub open spec fn other_step(s: LayoutState, cluster: Seq<char>, cap: nat) -> LayoutState {
    LayoutState {
        may_join: false,
        ..after_push(after_flush_all(s, cap), plain(cluster_kind(cluster[0]), cluster))
    }
}

/// What one grapheme cluster does to the layout.
pub open spec fn step(st: LayoutState, cluster: Seq<char>, cap: nat) -> LayoutState {
    if cluster.len() == 0 {
        st
    } else {
        let base = cluster[0];
        let s = settle_separator(st, base);
        if is_line_break_char(base) {
            newline_step(s, cluster, cap)
        } else if spec_is_white_space(base) {
            if spec_is_suffix_separator(base) && s.run.len() > 0 {
                LayoutState { separator: s.separator + cluster, ..s }
            } else {
                space_step(s, cluster, cap)
            }
        } else if spec_is_mongolian(base) {
            mongolian_step(s, cluster, cap)
        } else if spec_is_word_char(base) {
            word_step(s, cluster)
        } else if spec_is_word_connector(base) && (s.may_join || s.latin.len() > 0) {
            connector_step(s, cluster)
        } else {
            other_step(s, cluster, cap)
        }
    }
}

pub open spec fn run_clusters(cs: Seq<Seq<char>>, cap: nat) -> LayoutState
    decreases cs.len(),
{
    if cs.len() == 0 {
        initial_state()
    } else {
        step(run_clusters(cs.drop_last(), cap), cs.last(), cap)
    }
}

/// What is still open at the end of the text is set: the word, the run, a separator nothing
/// followed, then connectors that found no word.
pub open spec fn finish(st: LayoutState, cap: nat) -> LayoutState {
    let f = after_flush_run(after_flush_latin(st, cap));
    let g = if f.separator.len() > 0 {
        LayoutState { separator: Seq::empty(), ..after_push(f, plain(SlotKind::Space, f.separator)) }
    } else {
        f
    };
    after_flush_pending(g)
}

/// The layout of `text` under `config`.
pub open spec fn model_of(text: Seq<char>, config: LayoutConfig) -> LayoutState {
    layout_model(text, config.max_latin_word_width as nat)
}

/// The layout of `text` with Latin slots capped at `cap` clusters.
pub open spec fn layout_model(text: Seq<char>, cap: nat) -> LayoutState {
    finish(run_clusters(grapheme_clusters(text), cap), cap)
}

// ---------------------------------------------------------------------------------------------
// What the layout keeps of its source.
// ---------------------------------------------------------------------------------------------

/// The source text of columns separated by the line breaks that ended them.
pub open spec fn rejoin(cols: Seq<Seq<SlotModel>>, breaks: Seq<Seq<char>>) -> Seq<char>
    decreases cols.len(),
{
    if cols.len() == 0 {
        Seq::empty()
    } else if cols.len() == 1 {
        slots_source(cols[0])
    } else {
        rejoin(cols.drop_last(), breaks.drop_last()) + breaks.last() + slots_source(cols.last())
    }
}

/// Everything a layout state holds of its source, in order: the columns, then what is open.
pub open spec fn state_source(st: LayoutState) -> Seq<char> {
    rejoin(st.columns, st.breaks) + st.latin + st.pending + st.run + st.separator
}

/// The shape every reachable state has: a line break between consecutive columns, and an open
/// Mongolian run never beside an open Latin word or held-back connectors.
pub open spec fn ordered(st: LayoutState) -> bool {
    &&& st.columns.len() >= 1
    &&& st.breaks.len() + 1 == st.columns.len()
    &&& st.run.len() > 0 ==> st.latin.len() == 0 && st.pending.len() == 0 && !st.may_join
    &&& st.separator.len() > 0 ==> st.run.len() > 0
}

/// The clusters of `cs` that start a new column.
pub open spec fn line_break_clusters(cs: Seq<Seq<char>>) -> Seq<Seq<char>>
    decreases cs.len(),
{
    if cs.len() == 0 {
        Seq::empty()
    } else if cs.last().len() > 0 && is_line_break_char(cs.last()[0]) {
        line_break_clusters(cs.drop_last()).push(cs.last())
    } else {
        line_break_clusters(cs.drop_last())
    }
}

proof fn lemma_slots_source_single(m: SlotModel)
    ensures
        slots_source(seq![m]) == m.source,
{
    let e = Seq::<SlotModel>::empty();
    assert(seq![m].drop_last() =~= e);
    assert(slots_source(e) == Seq::<char>::empty());
    assert(seq![m].last() == m);
    assert(slots_source(seq![m]) == slots_source(e) + m.source);
    assert(Seq::<char>::empty() + m.source =~= m.source);
}

proof fn lemma_concat_all_single(x: Seq<char>)
    ensures
        concat_all(seq![x]) == x,
{
    let e = Seq::<Seq<char>>::empty();
    assert(seq![x].drop_last() =~= e);
    assert(concat_all(e) == Seq::<char>::empty());
    assert(seq![x].last() == x);
    assert(concat_all(seq![x]) == concat_all(e) + x);
    assert(Seq::<char>::empty() + x =~= x);
}

proof fn lemma_slots_source_append(a: Seq<SlotModel>, b: Seq<SlotModel>)
    ensures
        slots_source(a + b) == slots_source(a) + slots_source(b),
    decreases b.len(),
{
    if b.len() == 0 {
        assert(a + b =~= a);
    } else {
        lemma_slots_source_append(a, b.drop_last());
        assert((a + b).drop_last() =~= a + b.drop_last());
    }
}

proof fn lemma_rejoin_append(cols: Seq<Seq<SlotModel>>, brs: Seq<Seq<char>>, ms: Seq<SlotModel>)
    requires
        cols.len() >= 1,
    ensures
        rejoin(append_slots(cols, ms), brs) == rejoin(cols, brs) + slots_source(ms),
{
    lemma_slots_source_append(cols.last(), ms);
    let a = append_slots(cols, ms);
    if cols.len() == 1 {
        assert(a[0] == cols[0] + ms);
    } else {
        assert(a.drop_last() =~= cols.drop_last());
    }
}

proof fn lemma_rejoin_push(cols: Seq<Seq<SlotModel>>, brs: Seq<Seq<char>>, b: Seq<char>)
    requires
        cols.len() >= 1,
    ensures
        rejoin(cols.push(Seq::empty()), brs.push(b)) == rejoin(cols, brs) + b,
{
    let c = cols.push(Seq::<SlotModel>::empty());
    assert(c.drop_last() =~= cols);
    assert(brs.push(b).drop_last() =~= brs);
    assert(slots_source(Seq::<SlotModel>::empty()) =~= Seq::<char>::empty());
}

proof fn lemma_plain_source(cs: Seq<Seq<char>>, f: spec_fn(Seq<char>) -> SlotKind)
    ensures
        slots_source(cs.map_values(|c: Seq<char>| plain(f(c), c))) == concat_all(cs),
    decreases cs.len(),
{
    let ms = cs.map_values(|c: Seq<char>| plain(f(c), c));
    if cs.len() > 0 {
        lemma_plain_source(cs.drop_last(), f);
        assert(ms.drop_last() =~= cs.drop_last().map_values(|c: Seq<char>| plain(f(c), c)));
    }
}

pub(crate) proof fn lemma_pending_source(p: Seq<char>)
    ensures
        slots_source(pending_slots(p)) == p,
        p.len() > 0 ==> pending_slots(p).len() > 0,
{
    let cs = pending_clusters(p);
    let f = |c: Seq<char>| connector_kind(base_of(c));
    lemma_plain_source(cs, f);
    assert(pending_slots(p) =~= cs.map_values(|c: Seq<char>| plain(f(c), c)));
    if !partitions(grapheme_clusters(p), p) {
        lemma_concat_all_single(p);
    } else if p.len() > 0 && cs.len() == 0 {
        assert(concat_all(cs) =~= Seq::<char>::empty());
    }
}

pub(crate) proof fn lemma_latin_source(w: Seq<char>, cap: nat)
    ensures
        slots_source(latin_slots(w, cap)) == w,
        latin_slots(w, cap).len() > 0,
        forall|i: int|
            0 <= i < latin_slots(w, cap).len() ==> (#[trigger] latin_slots(w, cap)[i]).kind
                == SlotKind::LatinWord,
    decreases w.len(),
{
    let limit = clamp_limit(cap);
    let cs = grapheme_clusters(w);
    let mk = |p: (Seq<char>, bool)| SlotModel { kind: SlotKind::LatinWord, source: p.0, hyphen: p.1 };
    if w.len() <= limit || cs.len() <= limit || !partitions(cs, w) {
        assert(latin_slots(w, cap) =~= seq![mk((w, false))]);
        lemma_slots_source_single(mk((w, false)));
    } else {
        let (split, mark) = split_point(cs, limit);
        let head = concat_all(cs.subrange(0, split));
        let tail = concat_all(cs.subrange(split, cs.len() as int));
        if tail.len() < w.len() {
            lemma_latin_source(tail, cap);
            let rest = latin_slots(tail, limit);
            assert(split_pieces(tail, cap) == split_pieces(tail, limit));
            assert(latin_slots(w, cap) =~= seq![mk((head, mark))] + latin_slots(tail, cap));
            lemma_slots_source_append(seq![mk((head, mark))], latin_slots(tail, cap));
            lemma_slots_source_single(mk((head, mark)));
            if last_hyphen_before(cs, limit as int) is Some {
                assert(0 <= split <= cs.len()) by {
                    lemma_last_hyphen_bound(cs, limit as int);
                }
            }
            lemma_concat_all_split(cs, split);
            assert forall|i: int| 0 <= i < latin_slots(w, cap).len() implies (
            #[trigger] latin_slots(w, cap)[i]).kind == SlotKind::LatinWord by {
                if i > 0 {
                    assert(latin_slots(w, cap)[i] == latin_slots(tail, cap)[i - 1]);
                }
            }
        } else {
            assert(latin_slots(w, cap) =~= seq![mk((w, false))]);
            lemma_slots_source_single(mk((w, false)));
        }
    }
}

/// The first character of a joined run of clusters is the first character of its first cluster.
proof fn lemma_concat_all_first(cs: Seq<Seq<char>>)
    requires
        cs.len() > 0,
        cs[0].len() > 0,
    ensures
        concat_all(cs).len() > 0,
        concat_all(cs)[0] == cs[0][0],
{
    lemma_concat_all_split(cs, 1);
    assert(cs.subrange(0, 1) =~= seq![cs[0]]);
    lemma_concat_all_single(cs[0]);
}

/// Whether `s` holds no U+2010.
pub open spec fn dash_free(s: Seq<char>) -> bool {
    forall|k: int| 0 <= k < s.len() ==> #[trigger] s[k] != INSERTED_HYPHEN
}

/// Each piece of a word without U+2010 that ends in an inserted hyphen is followed by another
/// piece, which does not begin with U+2010; the first piece begins where the word does.
pub(crate) proof fn lemma_latin_hyphens(w: Seq<char>, cap: nat)
    requires
        w.len() > 0,
        dash_free(w),
    ensures
        hyphens_latin(latin_slots(w, cap)),
        latin_slots(w, cap)[0].source.len() > 0,
        latin_slots(w, cap)[0].source[0] == w[0],
    decreases w.len(),
{
    let limit = clamp_limit(cap);
    let cs = grapheme_clusters(w);
    let mk = |p: (Seq<char>, bool)| SlotModel { kind: SlotKind::LatinWord, source: p.0, hyphen: p.1 };
    lemma_latin_source(w, cap);
    if w.len() <= limit || cs.len() <= limit || !partitions(cs, w) {
        assert(latin_slots(w, cap) =~= seq![mk((w, false))]);
    } else {
        let (split, mark) = split_point(cs, limit);
        let head = concat_all(cs.subrange(0, split));
        let tail = concat_all(cs.subrange(split, cs.len() as int));
        if tail.len() < w.len() {
            lemma_last_hyphen_bound(cs, limit as int);
            assert(1 <= split < cs.len());
            lemma_concat_all_split(cs, split);
            let hs = cs.subrange(0, split);
            let ts = cs.subrange(split, cs.len() as int);
            assert(hs[0] == cs[0]);
            assert(ts[0] == cs[split]);
            lemma_concat_all_first(hs);
            lemma_concat_all_first(ts);
            assert(w == head + tail);
            assert(w[0] == head[0]);
            assert(dash_free(tail)) by {
                assert forall|k: int| 0 <= k < tail.len() implies #[trigger] tail[k] != INSERTED_HYPHEN by {
                    assert(tail[k] == w[head.len() + k]);
                }
            }
            lemma_latin_hyphens(tail, cap);
            lemma_latin_source(tail, cap);
            assert(split_pieces(tail, cap) == split_pieces(tail, limit));
            let whole = latin_slots(w, cap);
            let rest = latin_slots(tail, cap);
            assert(whole =~= seq![mk((head, mark))] + rest);
            assert(rest[0].source[0] == tail[0]);
            assert(tail[0] == w[head.len() as int]);
            assert forall|k: int| 0 <= k < whole.len() && (#[trigger] whole[k]).hyphen implies whole[k].kind
                == SlotKind::LatinWord && k + 1 < whole.len() && starts_plainly(whole[k + 1]) by {
                if k > 0 {
                    assert(whole[k] == rest[k - 1]);
                    assert(rest[k - 1].hyphen);
                    assert(whole[k + 1] == rest[k]);
                } else {
                    assert(whole[1] == rest[0]);
                }
            }
        } else {
            assert(latin_slots(w, cap) =~= seq![mk((w, false))]);
        }
    }
}

proof fn lemma_pieces_source(ps: Seq<(Seq<char>, bool)>)
    ensures
        slots_source(
            ps.map_values(
                |p: (Seq<char>, bool)|
                    SlotModel { kind: SlotKind::LatinWord, source: p.0, hyphen: p.1 },
            ),
        ) == concat_all(ps.map_values(|p: (Seq<char>, bool)| p.0)),
    decreases ps.len(),
{
    if ps.len() > 0 {
        lemma_pieces_source(ps.drop_last());
        assert(ps.map_values(
            |p: (Seq<char>, bool)| SlotModel { kind: SlotKind::LatinWord, source: p.0, hyphen: p.1 },
        ).drop_last() =~= ps.drop_last().map_values(
            |p: (Seq<char>, bool)| SlotModel { kind: SlotKind::LatinWord, source: p.0, hyphen: p.1 },
        ));
        assert(ps.map_values(|p: (Seq<char>, bool)| p.0).drop_last() =~= ps.drop_last().map_values(
            |p: (Seq<char>, bool)| p.0,
        ));
    }
}

/// Splitting a word never edits it: its pieces, without the hyphens the split inserted, spell
/// the word again.
pub proof fn split_pieces_spell_the_word(word: Seq<char>, limit: nat)
    ensures
        concat_all(split_pieces(word, limit).map_values(|p: (Seq<char>, bool)| p.0)) == word,
{
    lemma_latin_source(word, limit);
    lemma_pieces_source(split_pieces(word, limit));
}

/// A long word breaks only after a hyphen the author typed, or else where the layout inserts
/// one: every piece but the last that does not end in an inserted hyphen ends in `-` or U+2010.
/// No other connector (`_`, `.`, a bracket) is a break.
pub proof fn a_word_breaks_only_after_a_hyphen(word: Seq<char>, limit: nat)
    ensures
        forall|i: int|
            0 <= i < split_pieces(word, limit).len() - 1 && !(#[trigger] split_pieces(word, limit)[i]).1
                ==> split_pieces(word, limit)[i].0.len() > 0 && (split_pieces(word, limit)[i].0.last()
                == '-' || split_pieces(word, limit)[i].0.last() == INSERTED_HYPHEN),
    decreases word.len(),
{
    let lim = clamp_limit(limit);
    let cs = grapheme_clusters(word);
    let ps = split_pieces(word, limit);
    if word.len() <= lim || cs.len() <= lim || !partitions(cs, word) {
    } else {
        let (split, mark) = split_point(cs, lim);
        let head = concat_all(cs.subrange(0, split));
        let tail = concat_all(cs.subrange(split, cs.len() as int));
        if tail.len() < word.len() {
            a_word_breaks_only_after_a_hyphen(tail, limit);
            assert(split_pieces(tail, limit) == split_pieces(tail, lim));
            assert(ps == seq![(head, mark)] + split_pieces(tail, lim));
            if !mark {
                let h = last_hyphen_before(cs, lim as int)->0;
                lemma_last_hyphen_bound(cs, lim as int);
                lemma_last_hyphen_is(cs, lim as int);
                assert(split == h + 1);
                assert(is_hyphen_cluster(cs[h]));
                lemma_concat_all_step(cs, h);
                assert(cs.subrange(0, h + 1) == cs.subrange(0, split));
            }
            assert forall|i: int|
                0 <= i < ps.len() - 1 && !(#[trigger] ps[i]).1 implies ps[i].0.len() > 0 && (
            ps[i].0.last() == '-' || ps[i].0.last() == INSERTED_HYPHEN) by {
                if i > 0 {
                    assert(ps[i] == split_pieces(tail, limit)[i - 1]);
                }
            }
        }
    }
}

proof fn lemma_last_hyphen_is(cs: Seq<Seq<char>>, n: int)
    ensures
        last_hyphen_before(cs, n) matches Some(i) ==> is_hyphen_cluster(cs[i]),
    decreases n,
{
    if n > 0 && !is_hyphen_cluster(cs[n - 1]) {
        lemma_last_hyphen_is(cs, n - 1);
    }
}

proof fn lemma_last_hyphen_bound(cs: Seq<Seq<char>>, n: int)
    ensures
        last_hyphen_before(cs, n) matches Some(i) ==> 0 <= i < n,
    decreases n,
{
    if n > 0 {
        lemma_last_hyphen_bound(cs, n - 1);
    }
}

pub(crate) proof fn lemma_flush_latin_source(st: LayoutState, cap: nat)
    requires
        ordered(st),
    ensures
        ordered(after_flush_latin(st, cap)),
        state_source(after_flush_latin(st, cap)) == state_source(st),
        after_flush_latin(st, cap).breaks == st.breaks,
        after_flush_latin(st, cap).latin.len() == 0,
{
    if st.latin.len() > 0 {
        lemma_latin_source(st.latin, cap);
        lemma_rejoin_append(st.columns, st.breaks, latin_slots(st.latin, cap));
        let n = after_flush_latin(st, cap);
        assert(state_source(n) =~= state_source(st));
    }
}

pub(crate) proof fn lemma_flush_run_source(st: LayoutState)
    requires
        st.columns.len() >= 1,
        st.run.len() > 0 ==> st.latin.len() == 0 && st.pending.len() == 0,
    ensures
        st.separator.len() == 0 ==> ordered(after_flush_run(st)) || !ordered(st),
        after_flush_run(st).columns.len() == st.columns.len(),
        state_source(after_flush_run(st)) == state_source(st),
        after_flush_run(st).breaks == st.breaks,
        after_flush_run(st).run.len() == 0,
        after_flush_run(st).latin == st.latin,
        after_flush_run(st).pending == st.pending,
        after_flush_run(st).separator == st.separator,
        after_flush_run(st).may_join == st.may_join,
{
    if st.run.len() > 0 {
        let m = plain(SlotKind::MongolianRun, st.run);
        lemma_rejoin_append(st.columns, st.breaks, seq![m]);
        lemma_slots_source_single(m);
        let n = after_flush_run(st);
        assert(state_source(n) =~= state_source(st));
    }
}

pub(crate) proof fn lemma_flush_pending_source(st: LayoutState)
    requires
        ordered(st),
        st.latin.len() == 0,
    ensures
        ordered(after_flush_pending(st)),
        state_source(after_flush_pending(st)) == state_source(st),
        after_flush_pending(st).breaks == st.breaks,
        after_flush_pending(st).pending.len() == 0,
        after_flush_pending(st).latin == st.latin,
        after_flush_pending(st).run == st.run,
        after_flush_pending(st).separator == st.separator,
        after_flush_pending(st).may_join == st.may_join,
{
    if st.pending.len() > 0 {
        lemma_pending_source(st.pending);
        lemma_rejoin_append(st.columns, st.breaks, pending_slots(st.pending));
        let n = after_flush_pending(st);
        assert(state_source(n) =~= state_source(st));
    }
}

pub(crate) proof fn lemma_flush_all_source(st: LayoutState, cap: nat)
    requires
        ordered(st),
        st.separator.len() == 0,
    ensures
        ordered(after_flush_all(st, cap)),
        state_source(after_flush_all(st, cap)) == state_source(st),
        after_flush_all(st, cap).breaks == st.breaks,
        after_flush_all(st, cap).latin.len() == 0,
        after_flush_all(st, cap).run.len() == 0,
        after_flush_all(st, cap).pending.len() == 0,
        after_flush_all(st, cap).separator == st.separator,
{
    lemma_flush_latin_source(st, cap);
    lemma_flush_run_source(after_flush_latin(st, cap));
    lemma_flush_pending_source(after_flush_run(after_flush_latin(st, cap)));
}

proof fn lemma_push_source(st: LayoutState, m: SlotModel)
    requires
        st.columns.len() >= 1,
        st.latin.len() == 0,
        st.pending.len() == 0,
        st.run.len() == 0,
    ensures
        rejoin(after_push(st, m).columns, st.breaks) == rejoin(st.columns, st.breaks) + m.source,
{
    lemma_rejoin_append(st.columns, st.breaks, seq![m]);
    lemma_slots_source_single(m);
}

pub(crate) proof fn lemma_settle_source(st: LayoutState, base: char)
    requires
        ordered(st),
    ensures
        ordered(settle_separator(st, base)),
        state_source(settle_separator(st, base)) == state_source(st),
        settle_separator(st, base).breaks == st.breaks,
        !spec_is_mongolian(base) ==> settle_separator(st, base).separator.len() == 0,
        settle_separator(st, base).latin == st.latin,
        settle_separator(st, base).pending == st.pending,
        settle_separator(st, base).may_join == st.may_join,
{
    if st.separator.len() > 0 && !spec_is_mongolian(base) {
        lemma_flush_run_source(st);
        let f = after_flush_run(st);
        lemma_push_source(f, plain(SlotKind::Space, st.separator));
        let n = settle_separator(st, base);
        assert(state_source(n) =~= state_source(st));
    }
}

/// One cluster keeps the shape of the state, appends that cluster to what the state holds of its
/// source (unless a closing bracket overtakes held-back connectors), and opens a column exactly
/// at a line break.
pub(crate) proof fn lemma_step_source(st: LayoutState, cluster: Seq<char>, cap: nat)
    requires
        ordered(st),
    ensures
        ordered(step(st, cluster, cap)),
        state_source(step(st, cluster, cap)) == state_source(
            st,
        ) + cluster,
        step(st, cluster, cap).breaks == if cluster.len() > 0 && is_line_break_char(cluster[0]) {
            st.breaks.push(cluster)
        } else {
            st.breaks
        },
{
    if cluster.len() == 0 {
        assert(state_source(st) + cluster =~= state_source(st));
    } else {
        let base = cluster[0];
        lemma_settle_source(st, base);
        let s = settle_separator(st, base);
        let n = step(st, cluster, cap);
        if is_line_break_char(base) {
            lemma_flush_all_source(s, cap);
            let f = after_flush_all(s, cap);
            lemma_rejoin_push(f.columns, f.breaks, cluster);
            assert(state_source(n) =~= state_source(st) + cluster);
        } else if spec_is_white_space(base) {
            if spec_is_suffix_separator(base) && s.run.len() > 0 {
                assert(state_source(n) =~= state_source(st) + cluster);
            } else {
                lemma_flush_all_source(s, cap);
                let f = after_flush_all(s, cap);
                lemma_push_source(f, plain(SlotKind::Space, cluster));
                assert(state_source(n) =~= state_source(st) + cluster);
            }
        } else if spec_is_mongolian(base) {
            lemma_flush_latin_source(s, cap);
            lemma_flush_pending_source(after_flush_latin(s, cap));
            assert(state_source(n) =~= state_source(st) + cluster);
        } else if spec_is_word_char(base) {
            lemma_flush_run_source(s);
            assert(state_source(n) =~= state_source(st) + cluster);
        } else if spec_is_word_connector(base) && (s.may_join || s.latin.len() > 0) {
            if spec_closes_open_bracket(base, s.latin) {
                assert(state_source(n) =~= state_source(st) + cluster);
            } else {
                assert(state_source(n) =~= state_source(st) + cluster);
            }
        } else {
            lemma_flush_all_source(s, cap);
            let f = after_flush_all(s, cap);
            lemma_push_source(f, plain(cluster_kind(base), cluster));
            assert(state_source(n) =~= state_source(st) + cluster);
        }
    }
}

pub(crate) proof fn lemma_run_source(cs: Seq<Seq<char>>, cap: nat)
    ensures
        ordered(run_clusters(cs, cap)),
        state_source(run_clusters(cs, cap)) == concat_all(cs),
        run_clusters(cs, cap).breaks == line_break_clusters(cs),
    decreases cs.len(),
{
    if cs.len() == 0 {
        let st = initial_state();
        assert(state_source(st) =~= Seq::<char>::empty()) by {
            assert(slots_source(Seq::<SlotModel>::empty()) =~= Seq::<char>::empty());
        }
    } else {
        lemma_run_source(cs.drop_last(), cap);
        lemma_step_source(run_clusters(cs.drop_last(), cap), cs.last(), cap);
    }
}

pub(crate) proof fn lemma_finish_source(st: LayoutState, cap: nat)
    requires
        ordered(st),
    ensures
        ordered(finish(st, cap)),
        finish(st, cap).breaks == st.breaks,
        state_source(finish(st, cap)) == state_source(st),
        state_source(finish(st, cap)) == rejoin(finish(st, cap).columns, finish(st, cap).breaks),
{
    lemma_flush_latin_source(st, cap);
    lemma_flush_run_source(after_flush_latin(st, cap));
    let f = after_flush_run(after_flush_latin(st, cap));
    let g = if f.separator.len() > 0 {
        LayoutState { separator: Seq::empty(), ..after_push(f, plain(SlotKind::Space, f.separator)) }
    } else {
        f
    };
    if f.separator.len() > 0 {
        lemma_rejoin_append(f.columns, f.breaks, seq![plain(SlotKind::Space, f.separator)]);
        lemma_slots_source_single(plain(SlotKind::Space, f.separator));
        assert(state_source(g) =~= state_source(f));
    }
    lemma_flush_pending_source(g);
    let h = finish(st, cap);
    assert(state_source(h) =~= rejoin(h.columns, h.breaks));
}

proof fn lemma_line_breaks_are_breaks(cs: Seq<Seq<char>>)
    requires
        line_breaks_apart(cs),
    ensures
        forall|j: int|
            0 <= j < line_break_clusters(cs).len() ==> is_line_break_cluster(
                #[trigger] line_break_clusters(cs)[j],
            ),
    decreases cs.len(),
{
    if cs.len() > 0 {
        let p = cs.drop_last();
        assert forall|i: int, k: int|
            0 <= i < p.len() && 0 <= k < p[i].len() && is_line_break_char(
                #[trigger] p[i][k],
            ) implies is_line_break_cluster(p[i]) by {
            assert(p[i] == cs[i]);
            assert(is_line_break_char(cs[i][k]));
        }
        assert forall|i: int| 0 <= i < p.len() - 1 && #[trigger] p[i] == seq!['\r'] implies p[i
            + 1][0] != '\n' by {
            assert(p[i] == cs[i]);
            assert(p[i + 1] == cs[i + 1]);
        }
        lemma_line_breaks_are_breaks(p);
        if cs.last().len() > 0 && is_line_break_char(cs.last()[0]) {
            assert(is_line_break_char(cs[cs.len() - 1][0]));
            let b = line_break_clusters(cs);
            assert forall|j: int| 0 <= j < b.len() implies is_line_break_cluster(
                #[trigger] b[j],
            ) by {
                if j < b.len() - 1 {
                    assert(b[j] == line_break_clusters(p)[j]);
                }
            }
        } else {
            assert(line_break_clusters(cs) == line_break_clusters(p));
        }
    }
}

// ---------------------------------------------------------------------------------------------
// Where the line breaks stand, and which slots may end in an inserted hyphen.
// ---------------------------------------------------------------------------------------------

/// Whether a slot's source begins with something other than U+2010, so that the hyphen the
/// layout inserts before it cannot be mistaken for the author's.
pub open spec fn starts_plainly(m: SlotModel) -> bool {
    m.source.len() > 0 && m.source[0] != INSERTED_HYPHEN
}

/// Every slot that ends in an inserted hyphen is a Latin word, and the next piece of that word
/// follows it in the same column.
pub open spec fn hyphens_latin(ms: Seq<SlotModel>) -> bool {
    forall|k: int|
        0 <= k < ms.len() && (#[trigger] ms[k]).hyphen ==> ms[k].kind == SlotKind::LatinWord && k
            + 1 < ms.len() && starts_plainly(ms[k + 1])
}

pub open spec fn all_hyphens_latin(cols: Seq<Seq<SlotModel>>) -> bool {
    forall|i: int| 0 <= i < cols.len() ==> hyphens_latin(#[trigger] cols[i])
}

/// `b` keeps the closed columns of `a`: every column but the last one is left as it was.
pub open spec fn keeps_closed(a: Seq<Seq<SlotModel>>, b: Seq<Seq<SlotModel>>) -> bool {
    &&& 1 <= a.len() <= b.len()
    &&& b.take(a.len() - 1) == a.take(a.len() - 1)
}

/// `b` extends `a`: it keeps its closed columns and its line breaks.
pub open spec fn extends(a: LayoutState, b: LayoutState) -> bool {
    &&& keeps_closed(a.columns, b.columns)
    &&& a.breaks.len() <= b.breaks.len()
    &&& b.breaks.take(a.breaks.len() as int) == a.breaks
}

proof fn lemma_extends_trans(a: LayoutState, b: LayoutState, c: LayoutState)
    requires
        extends(a, b),
        extends(b, c),
    ensures
        extends(a, c),
{
    assert(c.columns.take(a.columns.len() - 1) =~= c.columns.take(b.columns.len() - 1).take(
        a.columns.len() - 1,
    ));
    assert(b.columns.take(a.columns.len() - 1) =~= b.columns.take(b.columns.len() - 1).take(
        a.columns.len() - 1,
    ));
    assert(c.breaks.take(a.breaks.len() as int) =~= c.breaks.take(b.breaks.len() as int).take(
        a.breaks.len() as int,
    ));
}

proof fn lemma_extends_refl(a: LayoutState)
    requires
        a.columns.len() >= 1,
    ensures
        extends(a, a),
{
    assert(a.breaks.take(a.breaks.len() as int) =~= a.breaks);
}

proof fn lemma_append_extends(st: LayoutState, ms: Seq<SlotModel>)
    requires
        st.columns.len() >= 1,
    ensures
        extends(st, LayoutState { columns: append_slots(st.columns, ms), ..st }),
        append_slots(st.columns, ms).len() == st.columns.len(),
{
    let cols = append_slots(st.columns, ms);
    assert(cols.take(st.columns.len() - 1) =~= st.columns.take(st.columns.len() - 1));
    assert(st.breaks.take(st.breaks.len() as int) =~= st.breaks);
}

proof fn lemma_append_hyphens(cols: Seq<Seq<SlotModel>>, ms: Seq<SlotModel>)
    requires
        cols.len() >= 1,
        all_hyphens_latin(cols),
        hyphens_latin(ms),
    ensures
        all_hyphens_latin(append_slots(cols, ms)),
{
    let a = append_slots(cols, ms);
    assert forall|i: int| 0 <= i < a.len() implies hyphens_latin(#[trigger] a[i]) by {
        if i == a.len() - 1 {
            let old = cols.last();
            let last = old + ms;
            assert(a[i] == last);
            assert(hyphens_latin(cols[cols.len() - 1]));
            assert forall|k: int| 0 <= k < last.len() && (#[trigger] last[k]).hyphen implies last[k].kind
                == SlotKind::LatinWord && k + 1 < last.len() && starts_plainly(last[k + 1]) by {
                if k < old.len() {
                    assert(last[k] == old[k]);
                    assert(old[k].hyphen);
                    assert(last[k + 1] == old[k + 1]);
                } else {
                    assert(last[k] == ms[k - old.len()]);
                    assert(ms[k - old.len()].hyphen);
                    assert(last[k + 1] == ms[k - old.len() + 1]);
                }
            }
        } else {
            assert(a[i] == cols[i]);
        }
    }
}

proof fn lemma_plain_hyphens(ms: Seq<SlotModel>)
    requires
        forall|k: int| 0 <= k < ms.len() ==> !(#[trigger] ms[k]).hyphen,
    ensures
        hyphens_latin(ms),
{
}

proof fn lemma_flush_latin_extends(st: LayoutState, cap: nat)
    requires
        st.columns.len() >= 1,
    ensures
        extends(st, after_flush_latin(st, cap)),
{
    if st.latin.len() > 0 {
        lemma_latin_source(st.latin, cap);
        lemma_append_extends(st, latin_slots(st.latin, cap));
        assert(after_flush_latin(st, cap).columns == append_slots(
            st.columns,
            latin_slots(st.latin, cap),
        ));
    } else {
        lemma_extends_refl(st);
    }
}

proof fn lemma_flush_run_extends(st: LayoutState)
    requires
        st.columns.len() >= 1,
    ensures
        extends(st, after_flush_run(st)),
{
    if st.run.len() > 0 {
        lemma_plain_hyphens(seq![plain(SlotKind::MongolianRun, st.run)]);
        lemma_append_extends(st, seq![plain(SlotKind::MongolianRun, st.run)]);
    } else {
        lemma_extends_refl(st);
    }
}

proof fn lemma_flush_pending_extends(st: LayoutState)
    requires
        st.columns.len() >= 1,
    ensures
        extends(st, after_flush_pending(st)),
{
    if st.pending.len() > 0 {
        let ms = pending_slots(st.pending);
        assert forall|k: int| 0 <= k < ms.len() implies !(#[trigger] ms[k]).hyphen by {
            assert(ms[k] == plain(
                connector_kind(base_of(pending_clusters(st.pending)[k])),
                pending_clusters(st.pending)[k],
            ));
        }
        lemma_plain_hyphens(ms);
        lemma_append_extends(st, ms);
    } else {
        lemma_extends_refl(st);
    }
}

proof fn lemma_push_extends(st: LayoutState, m: SlotModel)
    requires
        st.columns.len() >= 1,
        !m.hyphen,
    ensures
        extends(st, after_push(st, m)),
{
    lemma_plain_hyphens(seq![m]);
    lemma_append_extends(st, seq![m]);
}

proof fn lemma_flush_all_extends(st: LayoutState, cap: nat)
    requires
        st.columns.len() >= 1,
    ensures
        extends(st, after_flush_all(st, cap)),
        after_flush_all(st, cap).columns.len() == st.columns.len(),
{
    let a = after_flush_latin(st, cap);
    let b = after_flush_run(a);
    lemma_flush_latin_extends(st, cap);
    lemma_flush_run_extends(a);
    lemma_flush_pending_extends(b);
    lemma_extends_trans(st, a, b);
    lemma_extends_trans(st, b, after_flush_pending(b));
}

proof fn lemma_settle_extends(st: LayoutState, base: char)
    requires
        st.columns.len() >= 1,
    ensures
        extends(st, settle_separator(st, base)),
{
    if st.separator.len() > 0 && !spec_is_mongolian(base) {
        let f = after_flush_run(st);
        lemma_flush_run_extends(st);
        lemma_push_extends(f, plain(SlotKind::Space, st.separator));
        lemma_extends_trans(st, f, after_push(f, plain(SlotKind::Space, st.separator)));
    } else {
        lemma_extends_refl(st);
    }
}

/// One cluster extends the state.
proof fn lemma_step_extends(st: LayoutState, cluster: Seq<char>, cap: nat)
    requires
        st.columns.len() >= 1,
    ensures
        extends(st, step(st, cluster, cap)),
{
    if cluster.len() == 0 {
        lemma_extends_refl(st);
    } else {
        let base = cluster[0];
        let s = settle_separator(st, base);
        lemma_settle_extends(st, base);
        let n = step(st, cluster, cap);
        if is_line_break_char(base) {
            let f = after_flush_all(s, cap);
            lemma_flush_all_extends(s, cap);
            assert(n.columns.take(f.columns.len() - 1) =~= f.columns.take(f.columns.len() - 1));
            assert(n.breaks.take(f.breaks.len() as int) =~= f.breaks);
            lemma_extends_trans(st, s, f);
            lemma_extends_trans(st, f, n);
        } else if spec_is_white_space(base) {
            if spec_is_suffix_separator(base) && s.run.len() > 0 {
                lemma_extends_refl(s);
                lemma_extends_trans(st, s, n);
            } else {
                let f = after_flush_all(s, cap);
                lemma_flush_all_extends(s, cap);
                lemma_push_extends(f, plain(SlotKind::Space, cluster));
                lemma_extends_trans(st, s, f);
                lemma_extends_trans(st, f, n);
            }
        } else if spec_is_mongolian(base) {
            let a = after_flush_latin(s, cap);
            lemma_flush_latin_extends(s, cap);
            lemma_flush_pending_extends(a);
            lemma_extends_trans(st, s, a);
            lemma_extends_trans(st, a, n);
        } else if spec_is_word_char(base) {
            lemma_flush_run_extends(s);
            lemma_extends_trans(st, s, n);
        } else if spec_is_word_connector(base) && (s.may_join || s.latin.len() > 0) {
            lemma_extends_refl(s);
            lemma_extends_trans(st, s, n);
        } else {
            let f = after_flush_all(s, cap);
            lemma_flush_all_extends(s, cap);
            lemma_push_extends(f, plain(cluster_kind(base), cluster));
            lemma_extends_trans(st, s, f);
            lemma_extends_trans(st, f, n);
        }
    }
}


/// Where the `j`-th line break stands in the text that the columns and breaks rejoin.
pub open spec fn break_pos(cols: Seq<Seq<SlotModel>>, breaks: Seq<Seq<char>>, j: int) -> int {
    rejoin(cols.take(j + 1), breaks.take(j)).len() as int
}

/// A lone CR at `q` of `src` is not followed by LF: either something else follows it, or it is
/// the last thing, and then it was the last cluster seen.
pub open spec fn cr_alone(src: Seq<char>, q: int, last: Seq<char>) -> bool {
    &&& 0 <= q < src.len()
    &&& (q + 1 < src.len() ==> src[q + 1] != '\n')
    &&& (q + 1 == src.len() ==> last == seq!['\r'])
}

/// Every line break that is a lone CR stands alone in the source the state holds.
pub open spec fn lone_crs(st: LayoutState, last: Seq<char>) -> bool {
    forall|j: int|
        0 <= j < st.breaks.len() && #[trigger] st.breaks[j] == seq!['\r'] ==> cr_alone(
            state_source(st),
            break_pos(st.columns, st.breaks, j),
            last,
        )
}

proof fn lemma_step_lone_crs(st: LayoutState, cluster: Seq<char>, cap: nat, last: Seq<char>)
    requires
        ordered(st),
        cluster.len() > 0,
        lone_crs(st, last),
        last == seq!['\r'] ==> cluster[0] != '\n',
    ensures
        lone_crs(step(st, cluster, cap), cluster),
{
    let n = step(st, cluster, cap);
    lemma_step_source(st, cluster, cap);
    lemma_step_extends(st, cluster, cap);
    let src = state_source(st);
    assert(state_source(n) == src + cluster);
    let cl = st.columns.len();
    assert forall|j: int| 0 <= j < n.breaks.len() && #[trigger] n.breaks[j] == seq!['\r'] implies cr_alone(
        state_source(n),
        break_pos(n.columns, n.breaks, j),
        cluster,
    ) by {
        if j < st.breaks.len() {
            assert(n.breaks.take(st.breaks.len() as int)[j] == n.breaks[j]);
            assert(st.breaks[j] == n.breaks[j]);
            assert(n.columns.take(j + 1) =~= n.columns.take(cl - 1).take(j + 1));
            assert(st.columns.take(j + 1) =~= st.columns.take(cl - 1).take(j + 1));
            assert(n.breaks.take(j) =~= n.breaks.take(st.breaks.len() as int).take(j));
            assert(st.breaks.take(j) =~= st.breaks.take(st.breaks.len() as int).take(j));
            assert(st.breaks.take(st.breaks.len() as int) =~= st.breaks);
            assert(break_pos(n.columns, n.breaks, j) == break_pos(st.columns, st.breaks, j));
            let q = break_pos(st.columns, st.breaks, j);
            assert(cr_alone(src, q, last));
            if q + 1 < src.len() {
                assert((src + cluster)[q + 1] == src[q + 1]);
            } else {
                assert((src + cluster)[q + 1] == cluster[0]);
            }
        } else {
            let base = cluster[0];
            let s = settle_separator(st, base);
            lemma_settle_source(st, base);
            assert(is_line_break_char(base)) by {
                if !is_line_break_char(base) {
                    assert(n.breaks == st.breaks);
                }
            }
            let f = after_flush_all(s, cap);
            lemma_flush_all_source(s, cap);
            lemma_flush_all_extends(s, cap);
            assert(n.columns == f.columns.push(Seq::<SlotModel>::empty()));
            assert(n.breaks == f.breaks.push(cluster));
            assert(j == f.breaks.len());
            assert(n.columns.take(j + 1) =~= f.columns);
            assert(n.breaks.take(j) =~= f.breaks);
            assert(state_source(f) =~= rejoin(f.columns, f.breaks));
            assert(break_pos(n.columns, n.breaks, j) == src.len());
            assert(n.breaks[j] == cluster);
        }
    }
}

proof fn lemma_breaks_apart_prefix(cs: Seq<Seq<char>>)
    requires
        cs.len() > 0,
        line_breaks_apart(cs),
    ensures
        line_breaks_apart(cs.drop_last()),
{
    let p = cs.drop_last();
    assert forall|i: int, k: int|
        0 <= i < p.len() && 0 <= k < p[i].len() && is_line_break_char(#[trigger] p[i][k]) implies is_line_break_cluster(
        p[i],
    ) by {
        assert(p[i] == cs[i]);
        assert(is_line_break_char(cs[i][k]));
    }
    assert forall|i: int| 0 <= i < p.len() - 1 && #[trigger] p[i] == seq!['\r'] implies p[i + 1][0]
        != '\n' by {
        assert(p[i] == cs[i]);
        assert(p[i + 1] == cs[i + 1]);
    }
}

/// The cluster before the end of `cs`, or nothing.
pub open spec fn last_cluster(cs: Seq<Seq<char>>) -> Seq<char> {
    if cs.len() > 0 {
        cs.last()
    } else {
        Seq::empty()
    }
}

pub(crate) proof fn lemma_run_lone_crs(cs: Seq<Seq<char>>, cap: nat)
    requires
        line_breaks_apart(cs),
        forall|i: int| 0 <= i < cs.len() ==> (#[trigger] cs[i]).len() > 0,
    ensures
        lone_crs(run_clusters(cs, cap), last_cluster(cs)),
    decreases cs.len(),
{
    if cs.len() > 0 {
        let p = cs.drop_last();
        lemma_breaks_apart_prefix(cs);
        assert forall|i: int| 0 <= i < p.len() implies (#[trigger] p[i]).len() > 0 by {
            assert(p[i] == cs[i]);
        }
        lemma_run_lone_crs(p, cap);
        let st = run_clusters(p, cap);
        lemma_run_source(p, cap);
        lemma_step_source(st, cs.last(), cap);
        lemma_step_extends(st, cs.last(), cap);
        assert(cs.last() == cs[cs.len() - 1]);
        if p.len() > 0 && p.last() == seq!['\r'] {
            assert(p.last() == cs[cs.len() - 2]);
            assert(cs[cs.len() - 2 + 1][0] != '\n');
        }
        lemma_step_lone_crs(st, cs.last(), cap, last_cluster(p));
    }
}

pub(crate) proof fn lemma_finish_lone_crs(st: LayoutState, cap: nat, last: Seq<char>)
    requires
        ordered(st),
        lone_crs(st, last),
    ensures
        lone_crs(finish(st, cap), last),
{
    let a = after_flush_latin(st, cap);
    let f = after_flush_run(a);
    lemma_flush_latin_extends(st, cap);
    lemma_flush_latin_source(st, cap);
    lemma_flush_run_extends(a);
    lemma_flush_run_source(a);
    lemma_extends_trans(st, a, f);
    let g = if f.separator.len() > 0 {
        LayoutState { separator: Seq::empty(), ..after_push(f, plain(SlotKind::Space, f.separator)) }
    } else {
        f
    };
    if f.separator.len() > 0 {
        lemma_push_extends(f, plain(SlotKind::Space, f.separator));
        assert(extends(f, g));
        lemma_extends_trans(st, f, g);
    }
    lemma_flush_pending_extends(g);
    lemma_extends_trans(st, g, after_flush_pending(g));
    let h = finish(st, cap);
    lemma_finish_source(st, cap);
    let cl = st.columns.len();
    assert forall|j: int| 0 <= j < h.breaks.len() && #[trigger] h.breaks[j] == seq!['\r'] implies cr_alone(
        state_source(h),
        break_pos(h.columns, h.breaks, j),
        last,
    ) by {
        assert(h.breaks == st.breaks);
        assert(h.columns.take(j + 1) =~= h.columns.take(cl - 1).take(j + 1));
        assert(st.columns.take(j + 1) =~= st.columns.take(cl - 1).take(j + 1));
        assert(break_pos(h.columns, h.breaks, j) == break_pos(st.columns, st.breaks, j));
    }
}

proof fn lemma_flush_hyphens(st: LayoutState, cap: nat)
    requires
        st.columns.len() >= 1,
        all_hyphens_latin(st.columns),
        dash_free(st.latin),
    ensures
        all_hyphens_latin(after_flush_latin(st, cap).columns),
        all_hyphens_latin(after_flush_run(st).columns),
        all_hyphens_latin(after_flush_pending(st).columns),
        after_flush_latin(st, cap).columns.len() == st.columns.len(),
        after_flush_run(st).columns.len() == st.columns.len(),
        after_flush_pending(st).columns.len() == st.columns.len(),
        dash_free(after_flush_latin(st, cap).latin),
        dash_free(after_flush_run(st).latin),
        dash_free(after_flush_pending(st).latin),
{
    if st.latin.len() > 0 {
        lemma_latin_hyphens(st.latin, cap);
        lemma_append_hyphens(st.columns, latin_slots(st.latin, cap));
    }
    if st.run.len() > 0 {
        lemma_plain_hyphens(seq![plain(SlotKind::MongolianRun, st.run)]);
        lemma_append_hyphens(st.columns, seq![plain(SlotKind::MongolianRun, st.run)]);
    }
    if st.pending.len() > 0 {
        lemma_plain_hyphens(pending_slots(st.pending));
        lemma_append_hyphens(st.columns, pending_slots(st.pending));
    }
}

proof fn lemma_flush_all_hyphens(st: LayoutState, cap: nat)
    requires
        st.columns.len() >= 1,
        all_hyphens_latin(st.columns),
        dash_free(st.latin),
    ensures
        all_hyphens_latin(after_flush_all(st, cap).columns),
        after_flush_all(st, cap).columns.len() == st.columns.len(),
{
    lemma_flush_hyphens(st, cap);
    let a = after_flush_latin(st, cap);
    lemma_flush_hyphens(a, cap);
    let b = after_flush_run(a);
    lemma_flush_hyphens(b, cap);
}

proof fn lemma_push_hyphens(cols: Seq<Seq<SlotModel>>, m: SlotModel)
    requires
        cols.len() >= 1,
        all_hyphens_latin(cols),
        !m.hyphen,
    ensures
        all_hyphens_latin(push_slot(cols, m)),
{
    lemma_plain_hyphens(seq![m]);
    lemma_append_hyphens(cols, seq![m]);
}

/// Connectors and letters held for a word never hold U+2010 when the clusters they came from
/// do not.
proof fn lemma_step_dash_free(st: LayoutState, cluster: Seq<char>, cap: nat)
    requires
        dash_free(st.latin),
        dash_free(st.pending),
        cluster.len() > 0 && (spec_is_word_char(cluster[0]) || spec_is_word_connector(cluster[0]))
            ==> dash_free(cluster),
    ensures
        dash_free(step(st, cluster, cap).latin),
        dash_free(step(st, cluster, cap).pending),
{
    if cluster.len() > 0 {
        let n = step(st, cluster, cap);
        let s = settle_separator(st, cluster[0]);
        assert(s.latin == st.latin && s.pending == st.pending);
        assert forall|k: int| 0 <= k < n.latin.len() implies #[trigger] n.latin[k] != INSERTED_HYPHEN by {
            if n.latin.len() > 0 && n.latin != s.latin {
                let w = s.latin + s.pending + cluster;
                if n.latin == w {
                    if k < s.latin.len() {
                        assert(w[k] == s.latin[k]);
                    } else if k < s.latin.len() + s.pending.len() {
                        assert(w[k] == s.pending[k - s.latin.len()]);
                    } else {
                        assert(w[k] == cluster[k - s.latin.len() - s.pending.len()]);
                    }
                }
            }
        }
        assert forall|k: int| 0 <= k < n.pending.len() implies #[trigger] n.pending[k] != INSERTED_HYPHEN by {
            if n.pending.len() > 0 && n.pending != s.pending {
                let p = s.pending + cluster;
                if n.pending == p {
                    if k < s.pending.len() {
                        assert(p[k] == s.pending[k]);
                    } else {
                        assert(p[k] == cluster[k - s.pending.len()]);
                    }
                }
            }
        }
    }
}

proof fn lemma_step_hyphens(st: LayoutState, cluster: Seq<char>, cap: nat)
    requires
        st.columns.len() >= 1,
        all_hyphens_latin(st.columns),
        dash_free(st.latin),
    ensures
        all_hyphens_latin(step(st, cluster, cap).columns),
        step(st, cluster, cap).columns.len() >= 1,
{
    if cluster.len() > 0 {
        let base = cluster[0];
        let s = settle_separator(st, base);
        if st.separator.len() > 0 && !spec_is_mongolian(base) {
            lemma_flush_hyphens(st, cap);
            lemma_push_hyphens(after_flush_run(st).columns, plain(SlotKind::Space, st.separator));
        }
        assert(s.latin == st.latin);
        assert(all_hyphens_latin(s.columns) && s.columns.len() >= 1);
        if is_line_break_char(base) {
            lemma_flush_all_hyphens(s, cap);
            let f = after_flush_all(s, cap);
            let n = f.columns.push(Seq::<SlotModel>::empty());
            assert forall|i: int| 0 <= i < n.len() implies hyphens_latin(#[trigger] n[i]) by {
                if i < f.columns.len() {
                    assert(n[i] == f.columns[i]);
                }
            }
        } else if spec_is_white_space(base) {
            if !(spec_is_suffix_separator(base) && s.run.len() > 0) {
                lemma_flush_all_hyphens(s, cap);
                lemma_push_hyphens(after_flush_all(s, cap).columns, plain(SlotKind::Space, cluster));
            }
        } else if spec_is_mongolian(base) {
            lemma_flush_hyphens(s, cap);
            lemma_flush_hyphens(after_flush_latin(s, cap), cap);
        } else if spec_is_word_char(base) {
            lemma_flush_hyphens(s, cap);
        } else if spec_is_word_connector(base) && (s.may_join || s.latin.len() > 0) {
        } else {
            lemma_flush_all_hyphens(s, cap);
            lemma_push_hyphens(after_flush_all(s, cap).columns, plain(cluster_kind(cluster[0]), cluster));
        }
    }
}

proof fn lemma_run_hyphens(cs: Seq<Seq<char>>, cap: nat)
    requires
        word_clusters_dash_free(cs),
    ensures
        all_hyphens_latin(run_clusters(cs, cap).columns),
        run_clusters(cs, cap).columns.len() >= 1,
        dash_free(run_clusters(cs, cap).latin),
        dash_free(run_clusters(cs, cap).pending),
    decreases cs.len(),
{
    if cs.len() == 0 {
        let st = initial_state();
        assert(hyphens_latin(st.columns[0]));
    } else {
        let p = cs.drop_last();
        assert forall|i: int, k: int|
            0 <= i < p.len() && 0 < p[i].len() && (spec_is_word_char(p[i][0]) || spec_is_word_connector(
                p[i][0],
            )) && 0 <= k < p[i].len() implies #[trigger] p[i][k] != '\u{2010}' by {
            assert(p[i] == cs[i]);
        }
        lemma_run_hyphens(p, cap);
        let st = run_clusters(p, cap);
        let c = cs.last();
        assert(c == cs[cs.len() - 1]);
        assert(c.len() > 0 && (spec_is_word_char(c[0]) || spec_is_word_connector(c[0])) ==> dash_free(c)) by {
            if c.len() > 0 && (spec_is_word_char(c[0]) || spec_is_word_connector(c[0])) {
                assert forall|k: int| 0 <= k < c.len() implies #[trigger] c[k] != INSERTED_HYPHEN by {
                    assert(cs[cs.len() - 1][k] != '\u{2010}');
                }
            }
        }
        lemma_step_hyphens(st, c, cap);
        lemma_step_dash_free(st, c, cap);
    }
}

/// Only Latin words end in an inserted hyphen, and each such piece is followed in its column by
/// the next piece of its word, which does not begin with U+2010.
proof fn lemma_model_hyphens(text: Seq<char>, cap: nat)
    requires
        word_clusters_dash_free(grapheme_clusters(text)),
    ensures
        all_hyphens_latin(layout_model(text, cap).columns),
{
    let cs = grapheme_clusters(text);
    lemma_run_hyphens(cs, cap);
    let st = run_clusters(cs, cap);
    lemma_flush_hyphens(st, cap);
    let a = after_flush_latin(st, cap);
    lemma_flush_hyphens(a, cap);
    let f = after_flush_run(a);
    let g = if f.separator.len() > 0 {
        LayoutState { separator: Seq::empty(), ..after_push(f, plain(SlotKind::Space, f.separator)) }
    } else {
        f
    };
    if f.separator.len() > 0 {
        lemma_push_hyphens(f.columns, plain(SlotKind::Space, f.separator));
    }
    lemma_flush_hyphens(g, cap);
}

/// What the model of a text keeps of it: its columns and line breaks rejoin the text, each break is a line-break cluster, a lone CR
/// break is never followed by LF, and only Latin words end in an inserted hyphen.
pub(crate) proof fn lemma_model_lines_up(text: Seq<char>, cap: nat)
    requires
        partitions(grapheme_clusters(text), text),
        line_breaks_apart(grapheme_clusters(text)),
        word_clusters_dash_free(grapheme_clusters(text)),
    ensures
        ({
            let m = layout_model(text, cap);
            &&& rejoin(m.columns, m.breaks) == text
            &&& state_source(m) == text
            &&& m.columns.len() == m.breaks.len() + 1
            &&& forall|j: int| 0 <= j < m.breaks.len() ==> is_line_break_cluster(#[trigger] m.breaks[j])
            &&& all_hyphens_latin(m.columns)
            &&& lone_crs(m, last_cluster(grapheme_clusters(text)))
        }),
{
    let cs = grapheme_clusters(text);
    let st = run_clusters(cs, cap);
    lemma_run_source(cs, cap);
    lemma_finish_source(st, cap);
    lemma_line_breaks_are_breaks(cs);
    lemma_run_lone_crs(cs, cap);
    lemma_finish_lone_crs(st, cap, last_cluster(cs));
    lemma_model_hyphens(text, cap);
}

// ---------------------------------------------------------------------------------------------
// A layout whose cap no word reaches inserts no hyphen.
// ---------------------------------------------------------------------------------------------

/// No slot of the columns ends in an inserted hyphen.
pub open spec fn no_inserted_hyphen(cols: Seq<Seq<SlotModel>>) -> bool {
    forall|c: int, j: int| 0 <= c < cols.len() && 0 <= j < cols[c].len() ==> !(#[trigger] cols[c][j]).hyphen
}

proof fn lemma_append_no_hyphen(cols: Seq<Seq<SlotModel>>, ms: Seq<SlotModel>)
    requires
        cols.len() >= 1,
        no_inserted_hyphen(cols),
        forall|k: int| 0 <= k < ms.len() ==> !(#[trigger] ms[k]).hyphen,
    ensures
        no_inserted_hyphen(append_slots(cols, ms)),
{
    let a = append_slots(cols, ms);
    assert forall|c: int, j: int| 0 <= c < a.len() && 0 <= j < a[c].len() implies !(#[trigger] a[c][j]).hyphen by {
        if c < cols.len() - 1 {
            assert(a[c] == cols[c]);
        } else {
            let old = cols[cols.len() - 1];
            assert(a[c] == old + ms);
            if j < old.len() {
                assert(a[c][j] == old[j]);
            } else {
                assert(a[c][j] == ms[j - old.len()]);
            }
        }
    }
}

proof fn lemma_flush_no_hyphen(st: LayoutState, cap: nat)
    requires
        st.columns.len() >= 1,
        no_inserted_hyphen(st.columns),
        st.latin.len() <= cap,
    ensures
        no_inserted_hyphen(after_flush_latin(st, cap).columns),
        no_inserted_hyphen(after_flush_run(st).columns),
        no_inserted_hyphen(after_flush_pending(st).columns),
        after_flush_latin(st, cap).columns.len() == st.columns.len(),
        after_flush_run(st).columns.len() == st.columns.len(),
        after_flush_pending(st).columns.len() == st.columns.len(),
{
    if st.latin.len() > 0 {
        let w = st.latin;
        assert(w.len() <= clamp_limit(cap));
        assert(split_pieces(w, cap) == seq![(w, false)]);
        let ms = latin_slots(w, cap);
        assert(ms.len() == 1 && !ms[0].hyphen);
        lemma_append_no_hyphen(st.columns, ms);
    }
    if st.run.len() > 0 {
        lemma_append_no_hyphen(st.columns, seq![plain(SlotKind::MongolianRun, st.run)]);
    }
    if st.pending.len() > 0 {
        lemma_append_no_hyphen(st.columns, pending_slots(st.pending));
    }
}

proof fn lemma_flush_all_no_hyphen(st: LayoutState, cap: nat)
    requires
        st.columns.len() >= 1,
        no_inserted_hyphen(st.columns),
        st.latin.len() <= cap,
    ensures
        no_inserted_hyphen(after_flush_all(st, cap).columns),
        after_flush_all(st, cap).columns.len() == st.columns.len(),
{
    lemma_flush_no_hyphen(st, cap);
    let a = after_flush_latin(st, cap);
    lemma_flush_no_hyphen(a, cap);
    let b = after_flush_run(a);
    lemma_flush_no_hyphen(b, cap);
}

proof fn lemma_step_no_hyphen(st: LayoutState, cluster: Seq<char>, cap: nat)
    requires
        st.columns.len() >= 1,
        no_inserted_hyphen(st.columns),
        st.latin.len() <= cap,
    ensures
        no_inserted_hyphen(step(st, cluster, cap).columns),
        step(st, cluster, cap).columns.len() >= 1,
{
    if cluster.len() > 0 {
        let base = cluster[0];
        let s = settle_separator(st, base);
        if st.separator.len() > 0 && !spec_is_mongolian(base) {
            lemma_flush_no_hyphen(st, cap);
            lemma_append_no_hyphen(after_flush_run(st).columns, seq![plain(SlotKind::Space, st.separator)]);
        }
        assert(s.latin == st.latin);
        assert(no_inserted_hyphen(s.columns) && s.columns.len() >= 1);
        if is_line_break_char(base) {
            lemma_flush_all_no_hyphen(s, cap);
            let f = after_flush_all(s, cap);
            let n = f.columns.push(Seq::<SlotModel>::empty());
            assert forall|c: int, j: int| 0 <= c < n.len() && 0 <= j < n[c].len() implies !(
            #[trigger] n[c][j]).hyphen by {
                assert(c < f.columns.len());
                assert(n[c] == f.columns[c]);
            }
        } else if spec_is_white_space(base) {
            if !(spec_is_suffix_separator(base) && s.run.len() > 0) {
                lemma_flush_all_no_hyphen(s, cap);
                lemma_append_no_hyphen(after_flush_all(s, cap).columns, seq![plain(SlotKind::Space, cluster)]);
            }
        } else if spec_is_mongolian(base) {
            lemma_flush_no_hyphen(s, cap);
            lemma_flush_no_hyphen(after_flush_latin(s, cap), cap);
        } else if spec_is_word_char(base) {
            lemma_flush_no_hyphen(s, cap);
        } else if spec_is_word_connector(base) && (s.may_join || s.latin.len() > 0) {
        } else {
            lemma_flush_all_no_hyphen(s, cap);
            lemma_append_no_hyphen(
                after_flush_all(s, cap).columns,
                seq![plain(cluster_kind(cluster[0]), cluster)],
            );
        }
    }
}

proof fn lemma_run_no_hyphen(cs: Seq<Seq<char>>, cap: nat)
    requires
        concat_all(cs).len() <= cap,
    ensures
        no_inserted_hyphen(run_clusters(cs, cap).columns),
        run_clusters(cs, cap).columns.len() >= 1,
    decreases cs.len(),
{
    if cs.len() > 0 {
        let p = cs.drop_last();
        assert(concat_all(cs) == concat_all(p) + cs.last());
        lemma_run_no_hyphen(p, cap);
        let st = run_clusters(p, cap);
        lemma_run_source(p, cap);
        assert(state_source(st).len() == concat_all(p).len());
        assert(st.latin.len() <= state_source(st).len());
        lemma_step_no_hyphen(st, cs.last(), cap);
    }
}

/// A layout whose cap no word of the text can reach breaks no word itself: no slot ends in an
/// inserted hyphen. (The text is cut on its grapheme clusters, which cut it whole.)
pub(crate) proof fn lemma_no_inserted_hyphen(text: Seq<char>, cap: nat)
    requires
        partitions(grapheme_clusters(text), text),
        text.len() <= cap,
    ensures
        no_inserted_hyphen(layout_model(text, cap).columns),
{
    let cs = grapheme_clusters(text);
    lemma_run_no_hyphen(cs, cap);
    let st = run_clusters(cs, cap);
    lemma_run_source(cs, cap);
    assert(st.latin.len() <= state_source(st).len());
    lemma_flush_no_hyphen(st, cap);
    let a = after_flush_latin(st, cap);
    lemma_flush_no_hyphen(a, cap);
    let f = after_flush_run(a);
    let g = if f.separator.len() > 0 {
        LayoutState { separator: Seq::empty(), ..after_push(f, plain(SlotKind::Space, f.separator)) }
    } else {
        f
    };
    if f.separator.len() > 0 {
        lemma_append_no_hyphen(f.columns, seq![plain(SlotKind::Space, f.separator)]);
    }
    lemma_flush_no_hyphen(g, cap);
}

// ---------------------------------------------------------------------------------------------
// Which characters a layout shows.
// ---------------------------------------------------------------------------------------------

/// Every character of `s` occurs in `u`.
pub open spec fn chars_within(s: Seq<char>, u: Seq<char>) -> bool {
    forall|k: int| 0 <= k < s.len() ==> u.contains(#[trigger] s[k])
}

/// Every character of `t` occurs in `u` or is the hyphen the layout inserts.
pub open spec fn shown_within(t: Seq<char>, u: Seq<char>) -> bool {
    forall|k: int| 0 <= k < t.len() ==> #[trigger] t[k] == INSERTED_HYPHEN || u.contains(t[k])
}

/// Every source character the state holds, set or still open, occurs in `u`.
pub open spec fn state_within(st: LayoutState, u: Seq<char>) -> bool {
    &&& chars_within(st.latin, u)
    &&& chars_within(st.pending, u)
    &&& chars_within(st.run, u)
    &&& chars_within(st.separator, u)
    &&& forall|c: int, j: int|
        0 <= c < st.columns.len() && 0 <= j < st.columns[c].len() ==> chars_within(
            (#[trigger] st.columns[c][j]).source,
            u,
        )
}

proof fn lemma_within_concat(a: Seq<char>, b: Seq<char>, u: Seq<char>)
    ensures
        chars_within(a + b, u) <==> chars_within(a, u) && chars_within(b, u),
{
    if chars_within(a + b, u) {
        assert forall|k: int| 0 <= k < a.len() implies u.contains(#[trigger] a[k]) by {
            assert((a + b)[k] == a[k]);
        }
        assert forall|k: int| 0 <= k < b.len() implies u.contains(#[trigger] b[k]) by {
            assert((a + b)[a.len() + k] == b[k]);
        }
    }
    if chars_within(a, u) && chars_within(b, u) {
        assert forall|k: int| 0 <= k < (a + b).len() implies u.contains(#[trigger] (a + b)[k]) by {
            if k < a.len() {
                assert((a + b)[k] == a[k]);
            } else {
                assert((a + b)[k] == b[k - a.len()]);
            }
        }
    }
}

proof fn lemma_sources_within(ms: Seq<SlotModel>, u: Seq<char>)
    requires
        chars_within(slots_source(ms), u),
    ensures
        forall|j: int| 0 <= j < ms.len() ==> chars_within((#[trigger] ms[j]).source, u),
    decreases ms.len(),
{
    if ms.len() > 0 {
        lemma_within_concat(slots_source(ms.drop_last()), ms.last().source, u);
        lemma_sources_within(ms.drop_last(), u);
        assert forall|j: int| 0 <= j < ms.len() implies chars_within((#[trigger] ms[j]).source, u) by {
            if j < ms.len() - 1 {
                assert(ms[j] == ms.drop_last()[j]);
            }
        }
    }
}

proof fn lemma_append_within(st: LayoutState, ms: Seq<SlotModel>, u: Seq<char>)
    requires
        st.columns.len() >= 1,
        forall|c: int, j: int|
            0 <= c < st.columns.len() && 0 <= j < st.columns[c].len() ==> chars_within(
                (#[trigger] st.columns[c][j]).source,
                u,
            ),
        forall|j: int| 0 <= j < ms.len() ==> chars_within((#[trigger] ms[j]).source, u),
    ensures
        forall|c: int, j: int|
            0 <= c < append_slots(st.columns, ms).len() && 0 <= j < append_slots(
                st.columns,
                ms,
            )[c].len() ==> chars_within((#[trigger] append_slots(st.columns, ms)[c][j]).source, u),
{
    let cols = append_slots(st.columns, ms);
    let n = st.columns.len();
    assert forall|c: int, j: int|
        0 <= c < cols.len() && 0 <= j < cols[c].len() implies chars_within(
        (#[trigger] cols[c][j]).source,
        u,
    ) by {
        if c == n - 1 {
            let last = st.columns[n - 1];
            assert(cols[c] == last + ms);
            if j < last.len() {
                assert(cols[c][j] == last[j]);
            } else {
                assert(cols[c][j] == ms[j - last.len()]);
            }
        } else {
            assert(cols[c] == st.columns[c]);
        }
    }
}

proof fn lemma_pieces_within(ps: Seq<(Seq<char>, bool)>, u: Seq<char>)
    requires
        chars_within(concat_all(ps.map_values(|p: (Seq<char>, bool)| p.0)), u),
    ensures
        forall|i: int| 0 <= i < ps.len() ==> chars_within((#[trigger] ps[i]).0, u),
    decreases ps.len(),
{
    if ps.len() > 0 {
        let qs = ps.map_values(|p: (Seq<char>, bool)| p.0);
        assert(qs.drop_last() =~= ps.drop_last().map_values(|p: (Seq<char>, bool)| p.0));
        lemma_within_concat(concat_all(qs.drop_last()), qs.last(), u);
        lemma_pieces_within(ps.drop_last(), u);
        assert forall|i: int| 0 <= i < ps.len() implies chars_within((#[trigger] ps[i]).0, u) by {
            if i < ps.len() - 1 {
                assert(ps[i] == ps.drop_last()[i]);
            }
        }
    }
}

proof fn lemma_flush_latin_within(st: LayoutState, cap: nat, u: Seq<char>)
    requires
        st.columns.len() >= 1,
        state_within(st, u),
    ensures
        state_within(after_flush_latin(st, cap), u),
{
    if st.latin.len() > 0 {
        let ps = split_pieces(st.latin, cap);
        split_pieces_spell_the_word(st.latin, cap);
        lemma_pieces_within(ps, u);
        let ms = latin_slots(st.latin, cap);
        assert forall|j: int| 0 <= j < ms.len() implies chars_within((#[trigger] ms[j]).source, u) by {
            assert(ms[j].source == ps[j].0);
        }
        lemma_append_within(st, ms, u);
    }
}

proof fn lemma_flush_run_within(st: LayoutState, u: Seq<char>)
    requires
        st.columns.len() >= 1,
        state_within(st, u),
    ensures
        state_within(after_flush_run(st), u),
{
    if st.run.len() > 0 {
        lemma_append_within(st, seq![plain(SlotKind::MongolianRun, st.run)], u);
    }
}

proof fn lemma_flush_pending_within(st: LayoutState, u: Seq<char>)
    requires
        st.columns.len() >= 1,
        state_within(st, u),
    ensures
        state_within(after_flush_pending(st), u),
{
    if st.pending.len() > 0 {
        lemma_pending_source(st.pending);
        lemma_sources_within(pending_slots(st.pending), u);
        lemma_append_within(st, pending_slots(st.pending), u);
    }
}

proof fn lemma_push_within(st: LayoutState, m: SlotModel, u: Seq<char>)
    requires
        st.columns.len() >= 1,
        state_within(st, u),
        chars_within(m.source, u),
    ensures
        state_within(after_push(st, m), u),
{
    lemma_append_within(st, seq![m], u);
}

proof fn lemma_flush_all_within(st: LayoutState, cap: nat, u: Seq<char>)
    requires
        st.columns.len() >= 1,
        state_within(st, u),
    ensures
        state_within(after_flush_all(st, cap), u),
        after_flush_all(st, cap).columns.len() >= 1,
{
    lemma_flush_latin_within(st, cap, u);
    lemma_flush_latin_extends(st, cap);
    let a = after_flush_latin(st, cap);
    lemma_flush_run_within(a, u);
    lemma_flush_run_extends(a);
    lemma_flush_pending_within(after_flush_run(a), u);
}

/// One cluster whose characters occur in `u` keeps the state's characters within `u`.
proof fn lemma_step_within(st: LayoutState, cluster: Seq<char>, cap: nat, u: Seq<char>)
    requires
        st.columns.len() >= 1,
        state_within(st, u),
        chars_within(cluster, u),
    ensures
        state_within(step(st, cluster, cap), u),
{
    if cluster.len() > 0 {
        let base = cluster[0];
        let s = settle_separator(st, base);
        if st.separator.len() > 0 && !spec_is_mongolian(base) {
            lemma_flush_run_within(st, u);
            lemma_flush_run_extends(st);
            lemma_push_within(after_flush_run(st), plain(SlotKind::Space, st.separator), u);
        }
        lemma_settle_extends(st, base);
        assert(state_within(s, u));
        if is_line_break_char(base) {
            lemma_flush_all_within(s, cap, u);
            let f = after_flush_all(s, cap);
            let n = step(st, cluster, cap);
            assert forall|c: int, j: int|
                0 <= c < n.columns.len() && 0 <= j < n.columns[c].len() implies chars_within(
                (#[trigger] n.columns[c][j]).source,
                u,
            ) by {
                assert(n.columns[c] == f.columns[c]);
            }
        } else if spec_is_white_space(base) {
            if spec_is_suffix_separator(base) && s.run.len() > 0 {
                lemma_within_concat(s.separator, cluster, u);
            } else {
                lemma_flush_all_within(s, cap, u);
                lemma_push_within(after_flush_all(s, cap), plain(SlotKind::Space, cluster), u);
            }
        } else if spec_is_mongolian(base) {
            lemma_flush_latin_within(s, cap, u);
            lemma_flush_latin_extends(s, cap);
            let f = after_flush_pending(after_flush_latin(s, cap));
            lemma_flush_pending_within(after_flush_latin(s, cap), u);
            lemma_within_concat(f.run, f.separator, u);
            lemma_within_concat(f.run + f.separator, cluster, u);
        } else if spec_is_word_char(base) {
            lemma_flush_run_within(s, u);
            let f = after_flush_run(s);
            lemma_within_concat(f.latin, f.pending, u);
            lemma_within_concat(f.latin + f.pending, cluster, u);
        } else if spec_is_word_connector(base) && (s.may_join || s.latin.len() > 0) {
            lemma_within_concat(s.latin, cluster, u);
            lemma_within_concat(s.pending, cluster, u);
        } else {
            lemma_flush_all_within(s, cap, u);
            lemma_push_within(after_flush_all(s, cap), plain(cluster_kind(base), cluster), u);
        }
    }
}

proof fn lemma_clusters_within(cs: Seq<Seq<char>>)
    ensures
        forall|i: int| 0 <= i < cs.len() ==> chars_within(#[trigger] cs[i], concat_all(cs)),
    decreases cs.len(),
{
    if cs.len() > 0 {
        lemma_clusters_within(cs.drop_last());
        let all = concat_all(cs);
        let pre = concat_all(cs.drop_last());
        assert forall|i: int| 0 <= i < cs.len() implies chars_within(#[trigger] cs[i], all) by {
            assert forall|k: int| 0 <= k < cs[i].len() implies all.contains(#[trigger] cs[i][k]) by {
                if i < cs.len() - 1 {
                    assert(cs[i] == cs.drop_last()[i]);
                    assert(pre.contains(cs[i][k]));
                    let x = choose|x: int| 0 <= x < pre.len() && pre[x] == cs[i][k];
                    assert(all[x] == pre[x]);
                } else {
                    assert(all[pre.len() + k] == cs.last()[k]);
                }
            }
        }
    }
}

proof fn lemma_run_within(cs: Seq<Seq<char>>, cap: nat, u: Seq<char>)
    requires
        forall|i: int| 0 <= i < cs.len() ==> chars_within(#[trigger] cs[i], u),
    ensures
        state_within(run_clusters(cs, cap), u),
        run_clusters(cs, cap).columns.len() >= 1,
    decreases cs.len(),
{
    if cs.len() > 0 {
        lemma_run_within(cs.drop_last(), cap, u);
        assert(chars_within(cs[cs.len() - 1], u));
        lemma_step_within(run_clusters(cs.drop_last(), cap), cs.last(), cap, u);
        lemma_step_extends(run_clusters(cs.drop_last(), cap), cs.last(), cap);
    } else {
        let st = initial_state();
        assert(st.columns[0].len() == 0);
    }
}

/// The layout shows nothing that is not in the text: every source character of every slot
/// occurs in the text.
pub(crate) proof fn lemma_model_within(text: Seq<char>, cap: nat)
    requires
        partitions(grapheme_clusters(text), text),
    ensures
        forall|c: int, j: int|
            0 <= c < layout_model(text, cap).columns.len() && 0 <= j < layout_model(
                text,
                cap,
            ).columns[c].len() ==> chars_within(
                (#[trigger] layout_model(text, cap).columns[c][j]).source,
                text,
            ),
{
    let cs = grapheme_clusters(text);
    lemma_clusters_within(cs);
    lemma_run_within(cs, cap, text);
    let st = run_clusters(cs, cap);
    let a = after_flush_latin(st, cap);
    lemma_flush_latin_within(st, cap, text);
    lemma_flush_latin_extends(st, cap);
    let f = after_flush_run(a);
    lemma_flush_run_within(a, text);
    lemma_flush_run_extends(a);
    let g = if f.separator.len() > 0 {
        LayoutState { separator: Seq::empty(), ..after_push(f, plain(SlotKind::Space, f.separator)) }
    } else {
        f
    };
    if f.separator.len() > 0 {
        lemma_push_within(f, plain(SlotKind::Space, f.separator), text);
        lemma_push_extends(f, plain(SlotKind::Space, f.separator));
    }
    lemma_flush_pending_within(g, text);
}

// ---------------------------------------------------------------------------------------------
// The executable layout.
// ---------------------------------------------------------------------------------------------

struct Layouter {
    done: Vec<Column>,
    current: Vec<Slot>,
    latin_word: String,
    mongolian_run: String,
    pending_connectors: String,
    connectors_may_join: bool,
    pending_separator: String,
}

proof fn lemma_append_slots(cols: Seq<Seq<SlotModel>>, ms: Seq<SlotModel>)
    requires
        cols.len() >= 1,
    ensures
        append_slots(cols, ms).len() == cols.len(),
        append_slots(cols, ms).drop_last() == cols.drop_last(),
        append_slots(cols, ms).last() == cols.last() + ms,
        shown_slots(cols.last() + ms) == shown_slots(cols.last()) + shown_slots(ms),
{
    assert(append_slots(cols, ms).drop_last() =~= cols.drop_last());
    assert(shown_slots(cols.last() + ms) =~= shown_slots(cols.last()) + shown_slots(ms));
}

impl Layouter {
    fn step(&mut self, cluster: &String, cap: usize, Ghost(st): Ghost<LayoutState>)
        requires
            old(self).agrees(st),
        ensures
            final(self).agrees(step(st, cluster@, cap as nat)),
    {
        if cluster.as_str().is_empty() {
            return;
        }
        let base = cluster.as_str().get_char(0);
        let ghost s = settle_separator(st, base);
        // A held-back separator learns here what followed it.
        if !self.pending_separator.as_str().is_empty() && !is_mongolian(base) {
            self.flush_mongolian(Ghost(st));
            let separator = self.pending_separator.clone();
            self.push(
                Slot::Space(separator),
                Ghost(after_flush_run(st)),
                Ghost(plain(SlotKind::Space, st.separator)),
            );
            self.pending_separator = String::new();
        }
        assert(self.agrees(s));
        if base == '\n' || base == '\r' {
            // "\r\n" is one cluster and opens one column.
            self.flush_all(cap, Ghost(s));
            self.connectors_may_join = true;
            let ghost f = after_flush_all(s, cap as nat);
            let ghost done = self.done@;
            let mut slots: Vec<Slot> = Vec::new();
            std::mem::swap(&mut slots, &mut self.current);
            self.done.push(Column { slots });
            proof {
                let next = newline_step(s, cluster@, cap as nat);
                assert(next.columns.drop_last() =~= f.columns);
                assert(columns_view(self.done@) =~= columns_view(done) + seq![slots_view(slots@)]);
                assert(f.columns =~= f.columns.drop_last().push(f.columns.last()));
                assert(shown_columns(f.columns) =~= shown_columns(f.columns.drop_last()) + seq![
                    shown_slots(f.columns.last()),
                ]);
                assert(slots_view(self.current@) =~= shown_slots(next.columns.last()));
            }
        } else if is_white_space(base) {
            if is_suffix_separator(base) && !self.mongolian_run.as_str().is_empty() {
                // Not a space here but the joint that holds a case ending onto its stem; hold it
                // until the next cluster says whether a suffix follows.
                self.pending_separator.append(cluster.as_str());
                return;
            }
            self.flush_all(cap, Ghost(s));
            self.push(
                Slot::Space(cluster.clone()),
                Ghost(after_flush_all(s, cap as nat)),
                Ghost(plain(SlotKind::Space, cluster@)),
            );
            self.connectors_may_join = true;
        } else if is_mongolian(base) {
            self.flush_latin(cap, Ghost(s));
            self.flush_pending(Ghost(after_flush_latin(s, cap as nat)));
            self.connectors_may_join = false;
            let mut separator = String::new();
            std::mem::swap(&mut separator, &mut self.pending_separator);
            self.mongolian_run.append(separator.as_str());
            self.mongolian_run.append(cluster.as_str());
        } else if is_word_char(base) {
            self.flush_mongolian(Ghost(s));
            let mut pending = String::new();
            std::mem::swap(&mut pending, &mut self.pending_connectors);
            self.latin_word.append(pending.as_str());
            self.latin_word.append(cluster.as_str());
            self.connectors_may_join = true;
        } else if is_word_connector(base) && (self.connectors_may_join
            || !self.latin_word.as_str().is_empty()) {
            // Between letters a connector is part of the word. At the tail of an open word it
            // waits to learn whether letters follow, unless it closes a bracket the word opened.
            if closes_open_bracket(base, self.latin_word.as_str()) {
                // The bracket closes the word, and the connectors held back before it are the
                // word's too: they stay where the author put them.
                let mut pending = String::new();
                std::mem::swap(&mut pending, &mut self.pending_connectors);
                self.latin_word.append(pending.as_str());
                self.latin_word.append(cluster.as_str());
            } else {
                self.pending_connectors.append(cluster.as_str());
            }
        } else {
            self.flush_all(cap, Ghost(s));
            let kind = if is_corner_punctuation(base) {
                SlotKind::CornerPunctuation
            } else if has_vertical_form(base) {
                SlotKind::VerticalPunctuation
            } else if is_cjk(base) {
                SlotKind::Upright
            } else {
                SlotKind::Neutral
            };
            self.push(
                make_slot(kind, cluster.clone()),
                Ghost(after_flush_all(s, cap as nat)),
                Ghost(plain(kind, cluster@)),
            );
            self.connectors_may_join = false;
        }
    }

    spec fn agrees(&self, st: LayoutState) -> bool {
        &&& st.columns.len() >= 1
        &&& columns_view(self.done@) == shown_columns(st.columns.drop_last())
        &&& slots_view(self.current@) == shown_slots(st.columns.last())
        &&& self.latin_word@ == st.latin
        &&& self.mongolian_run@ == st.run
        &&& self.pending_connectors@ == st.pending
        &&& self.connectors_may_join == st.may_join
        &&& self.pending_separator@ == st.separator
    }

    fn new() -> (l: Layouter)
        ensures
            l.agrees(initial_state()),
    {
        let l = Layouter {
            done: Vec::new(),
            current: Vec::new(),
            latin_word: String::new(),
            mongolian_run: String::new(),
            pending_connectors: String::new(),
            connectors_may_join: true,
            pending_separator: String::new(),
        };
        assert(columns_view(l.done@) =~= shown_columns(initial_state().columns.drop_last()));
        assert(slots_view(l.current@) =~= shown_slots(initial_state().columns.last()));
        l
    }

    fn push(&mut self, slot: Slot, Ghost(st): Ghost<LayoutState>, Ghost(m): Ghost<SlotModel>)
        requires
            old(self).agrees(st),
            slot@ == shown(m),
        ensures
            final(self).agrees(after_push(st, m)),
    {
        let ghost before = self.current@;
        self.current.push(slot);
        proof {
            lemma_append_slots(st.columns, seq![m]);
            assert(slots_view(self.current@) =~= slots_view(before) + seq![slot@]);
            assert(shown_slots(seq![m]) =~= seq![shown(m)]);
        }
    }

    fn flush_latin(&mut self, cap: usize, Ghost(st): Ghost<LayoutState>)
        requires
            old(self).agrees(st),
        ensures
            final(self).agrees(after_flush_latin(st, cap as nat)),
    {
        if self.latin_word.as_str().is_empty() {
            return;
        }
        let pieces = split_latin_word(self.latin_word.as_str(), cap);
        let ghost ms = latin_slots(st.latin, cap as nat);
        let ghost sp = split_pieces(st.latin, cap as nat);
        let ghost before = self.current@;
        let mut i: usize = 0;
        assert(string_views(pieces@).len() == pieces@.len());
        assert(ms.len() == sp.len());
        assert(sp.map_values(|p: (Seq<char>, bool)| piece_text(p)).len() == sp.len());
        assert(ms.take(0) =~= Seq::<SlotModel>::empty());
        assert(slots_view(before) + shown_slots(ms.take(0)) =~= slots_view(before));
        while i < pieces.len()
            invariant
                0 <= i <= pieces@.len(),
                string_views(pieces@) == split_pieces(st.latin, cap as nat).map_values(
                    |p: (Seq<char>, bool)| piece_text(p),
                ),
                ms == latin_slots(st.latin, cap as nat),
                sp == split_pieces(st.latin, cap as nat),
                ms.len() == pieces@.len(),
                slots_view(self.current@) == slots_view(before) + shown_slots(ms.take(i as int)),
                columns_view(self.done@) == shown_columns(st.columns.drop_last()),
                self.mongolian_run@ == st.run,
                self.pending_connectors@ == st.pending,
                self.connectors_may_join == st.may_join,
                self.pending_separator@ == st.separator,
            decreases pieces@.len() - i,
        {
            let ghost cur = self.current@;
            self.current.push(Slot::LatinWord(pieces[i].clone()));
            proof {
                assert(string_views(pieces@)[i as int] == pieces@[i as int]@);
                assert(sp.map_values(|p: (Seq<char>, bool)| piece_text(p))[i as int] == piece_text(
                    sp[i as int],
                ));
                assert(shown(ms[i as int]) == (SlotKind::LatinWord, pieces@[i as int]@));
                assert(ms.take(i + 1) =~= ms.take(i as int).push(ms[i as int]));
                assert(slots_view(self.current@) =~= slots_view(cur) + seq![
                    (SlotKind::LatinWord, pieces@[i as int]@),
                ]);
                assert(shown_slots(ms.take(i + 1)) =~= shown_slots(ms.take(i as int)) + seq![
                    shown(ms[i as int]),
                ]);
            }
            i = i + 1;
        }
        self.latin_word = String::new();
        proof {
            assert(ms.take(i as int) =~= ms);
            lemma_append_slots(st.columns, ms);
            let next = after_flush_latin(st, cap as nat);
            assert(next.columns == append_slots(st.columns, ms));
            assert(slots_view(self.current@) == shown_slots(next.columns.last()));
            assert(columns_view(self.done@) == shown_columns(next.columns.drop_last()));
            assert(self.latin_word@ == next.latin);
        }
    }

    fn flush_mongolian(&mut self, Ghost(st): Ghost<LayoutState>)
        requires
            old(self).agrees(st),
        ensures
            final(self).agrees(after_flush_run(st)),
    {
        if self.mongolian_run.as_str().is_empty() {
            return;
        }
        let mut run = String::new();
        std::mem::swap(&mut run, &mut self.mongolian_run);
        let ghost before = self.current@;
        self.current.push(Slot::MongolianRun(run));
        proof {
            lemma_append_slots(st.columns, seq![plain(SlotKind::MongolianRun, st.run)]);
            assert(slots_view(self.current@) =~= slots_view(before) + seq![
                (SlotKind::MongolianRun, st.run),
            ]);
            assert(shown_slots(seq![plain(SlotKind::MongolianRun, st.run)]) =~= seq![
                (SlotKind::MongolianRun, st.run),
            ]);
        }
    }

    fn flush_pending(&mut self, Ghost(st): Ghost<LayoutState>)
        requires
            old(self).agrees(st),
        ensures
            final(self).agrees(after_flush_pending(st)),
    {
        if self.pending_connectors.as_str().is_empty() {
            return;
        }
        let clusters = graphemes(self.pending_connectors.as_str());
        let ghost cs = string_views(clusters@);
        assert(pending_clusters(st.pending) == cs);
        let ghost ms = pending_slots(st.pending);
        let ghost before = self.current@;
        let mut i: usize = 0;
        assert(ms.len() == cs.len());
        assert(ms.take(0) =~= Seq::<SlotModel>::empty());
        assert(slots_view(before) + shown_slots(ms.take(0)) =~= slots_view(before));
        while i < clusters.len()
            invariant
                0 <= i <= clusters@.len(),
                cs == string_views(clusters@),
                ms == pending_slots(st.pending),
                pending_clusters(st.pending) == cs,
                ms.len() == clusters@.len(),
                slots_view(self.current@) == slots_view(before) + shown_slots(ms.take(i as int)),
                columns_view(self.done@) == shown_columns(st.columns.drop_last()),
                self.mongolian_run@ == st.run,
                self.latin_word@ == st.latin,
                self.connectors_may_join == st.may_join,
                self.pending_separator@ == st.separator,
            decreases clusters@.len() - i,
        {
            let cluster = &clusters[i];
            let base = first_char(cluster.as_str());
            let kind = if is_corner_punctuation(base) {
                SlotKind::CornerPunctuation
            } else if has_vertical_form(base) {
                SlotKind::VerticalPunctuation
            } else {
                SlotKind::Neutral
            };
            let ghost cur = self.current@;
            self.current.push(make_slot(kind, cluster.clone()));
            proof {
                assert(cs[i as int] == cluster@);
                assert(shown(ms[i as int]) == (kind, cluster@));
                assert(ms.take(i + 1) =~= ms.take(i as int).push(ms[i as int]));
                assert(slots_view(self.current@) =~= slots_view(cur) + seq![(kind, cluster@)]);
                assert(shown_slots(ms.take(i + 1)) =~= shown_slots(ms.take(i as int)) + seq![
                    shown(ms[i as int]),
                ]);
            }
            i = i + 1;
        }
        self.pending_connectors = String::new();
        proof {
            assert(ms.take(i as int) =~= ms);
            lemma_append_slots(st.columns, ms);
            let next = after_flush_pending(st);
            assert(next.columns == append_slots(st.columns, ms));
            assert(slots_view(self.current@) == shown_slots(next.columns.last()));
            assert(columns_view(self.done@) == shown_columns(next.columns.drop_last()));
            assert(self.pending_connectors@ == next.pending);
        }
    }

    fn flush_all(&mut self, cap: usize, Ghost(st): Ghost<LayoutState>)
        requires
            old(self).agrees(st),
        ensures
            final(self).agrees(after_flush_all(st, cap as nat)),
    {
        self.flush_latin(cap, Ghost(st));
        self.flush_mongolian(Ghost(after_flush_latin(st, cap as nat)));
        self.flush_pending(Ghost(after_flush_run(after_flush_latin(st, cap as nat))));
    }
}

/// Whether `ch` closes a bracket that `word` already holds open: `kedU(n)` is one word because
/// its `)` matches a `(` the letters already claimed.
pub fn closes_open_bracket(ch: char, word: &str) -> (r: bool)
    ensures
        r == spec_closes_open_bracket(ch, word@),
{
    let opener = if ch == ')' {
        '('
    } else if ch == ']' {
        '['
    } else if ch == '}' {
        '{'
    } else if ch == '>' {
        '<'
    } else {
        return false;
    };
    let chars = chars_of(word);
    let mut opens: usize = 0;
    let mut closes: usize = 0;
    let mut i: usize = 0;
    while i < chars.len()
        invariant
            i <= chars@.len(),
            chars@ == word@,
            opens == count_char(chars@.take(i as int), opener),
            closes == count_char(chars@.take(i as int), ch),
            opens <= i,
            closes <= i,
        decreases chars@.len() - i,
    {
        assert(chars@.take(i + 1).drop_last() =~= chars@.take(i as int));
        if chars[i] == opener {
            opens = opens + 1;
        }
        if chars[i] == ch {
            closes = closes + 1;
        }
        i = i + 1;
    }
    assert(chars@.take(i as int) =~= word@);
    opens > closes
}

/// Lays `input` out top to bottom. Each source line break starts a new column; a whole Latin
/// word is one slot (long words are broken into pieces of at most
/// `config.max_latin_word_width` clusters); a Mongolian run is one slot; every other grapheme
/// cluster is a slot of its own, classified by its first character.
///
/// Layout never edits the text: the slots' sources, with the line breaks that end each column
/// between them, spell the input again, for every input.
pub fn layout_text(input: &str, config: &LayoutConfig) -> (layout: Layout)
    ensures
        layout.slots_of() == shown_columns(model_of(input@, *config).columns),
        layout.progression == config.progression,
        rejoin(
            model_of(input@, *config).columns,
            model_of(input@, *config).breaks,
        ) == input@,
        model_of(input@, *config).breaks == line_break_clusters(grapheme_clusters(input@)),
        layout.columns@.len() == line_break_clusters(grapheme_clusters(input@)).len() + 1,
        partitions(grapheme_clusters(input@), input@),
        line_breaks_apart(grapheme_clusters(input@)),
        word_clusters_dash_free(grapheme_clusters(input@)),
        forall|c: int, j: int|
            0 <= c < model_of(input@, *config).columns.len() && 0 <= j < model_of(
                input@,
                *config,
            ).columns[c].len() ==> chars_within(
                (#[trigger] model_of(input@, *config).columns[c][j]).source,
                input@,
            ),
        forall|c: int, j: int|
            0 <= c < layout.slots_of().len() && 0 <= j < layout.slots_of()[c].len() ==> shown_within(
                (#[trigger] layout.slots_of()[c][j]).1,
                input@,
            ),
        forall|j: int|
            0 <= j < model_of(input@, *config).breaks.len() ==> is_line_break_cluster(
                #[trigger] model_of(input@, *config).breaks[j],
            ),
{
    let cap = config.max_latin_word_width;
    let clusters = graphemes(input);
    let ghost cs = string_views(clusters@);
    let layout = layout_clusters(&clusters, config);
    let ghost st = run_clusters(cs, cap as nat);
    let ghost last = finish(st, cap as nat);
    proof {
        lemma_run_source(cs, cap as nat);
        lemma_finish_source(st, cap as nat);
        lemma_line_breaks_are_breaks(cs);
        assert(columns_view(layout.columns@).len() == layout.columns@.len());
        assert(shown_columns(last.columns).len() == last.columns.len());
        lemma_model_within(input@, cap as nat);
        let sc = shown_columns(last.columns);
        assert forall|c: int, j: int| 0 <= c < sc.len() && 0 <= j < sc[c].len() implies shown_within(
            #[trigger] sc[c][j].1,
            input@,
        ) by {
            let m = last.columns[c][j];
            assert(sc[c] == shown_slots(last.columns[c]));
            assert(sc[c][j] == shown(m));
            assert(chars_within(m.source, input@));
        }
        assert forall|c: int, j: int| 0 <= c < last.columns.len() && 0 <= j < last.columns[c].len()
            implies chars_within((#[trigger] last.columns[c][j]).source, input@) by {
            assert(chars_within(last.columns[c][j].source, input@));
        }
    }
    layout
}

/// Lays out text already cut into grapheme clusters: the part of `layout_text` that follows
/// the segmentation, for every sequence of clusters.
pub fn layout_clusters(clusters: &Vec<String>, config: &LayoutConfig) -> (layout: Layout)
    ensures
        layout.slots_of() == shown_columns(
            finish(run_clusters(string_views(clusters@), config.max_latin_word_width as nat), config.max_latin_word_width as nat).columns,
        ),
        layout.columns@.len() == finish(
            run_clusters(string_views(clusters@), config.max_latin_word_width as nat),
            config.max_latin_word_width as nat,
        ).columns.len(),
        layout.progression == config.progression,
{
    let cap = config.max_latin_word_width;
    let ghost cs = string_views(clusters@);
    let mut l = Layouter::new();
    let mut i: usize = 0;
    assert(cs.take(0) =~= Seq::<Seq<char>>::empty());
    while i < clusters.len()
        invariant
            i <= clusters@.len(),
            cs == string_views(clusters@),
            l.agrees(run_clusters(cs.take(i as int), cap as nat)),
        decreases clusters@.len() - i,
    {
        l.step(&clusters[i], cap, Ghost(run_clusters(cs.take(i as int), cap as nat)));
        assert(cs.take(i + 1).drop_last() =~= cs.take(i as int));
        assert(cs.take(i + 1).last() == clusters@[i as int]@);
        i = i + 1;
    }
    assert(cs.take(i as int) =~= cs);
    let ghost st = run_clusters(cs, cap as nat);
    l.flush_latin(cap, Ghost(st));
    let ghost f = after_flush_run(after_flush_latin(st, cap as nat));
    l.flush_mongolian(Ghost(after_flush_latin(st, cap as nat)));
    // Nothing followed it, so the separator was the narrow space after all.
    if !l.pending_separator.as_str().is_empty() {
        let separator = l.pending_separator.clone();
        l.push(Slot::Space(separator), Ghost(f), Ghost(plain(SlotKind::Space, f.separator)));
        l.pending_separator = String::new();
    }
    let ghost g = if f.separator.len() > 0 {
        LayoutState { separator: Seq::empty(), ..after_push(f, plain(SlotKind::Space, f.separator)) }
    } else {
        f
    };
    l.flush_pending(Ghost(g));
    let ghost last = finish(st, cap as nat);
    let Layouter { mut done, current, .. } = l;
    let ghost done_view = done@;
    done.push(Column { slots: current });
    proof {
        assert(last.columns =~= last.columns.drop_last().push(last.columns.last()));
        assert(columns_view(done@) =~= columns_view(done_view) + seq![slots_view(current@)]);
        assert(shown_columns(last.columns) =~= shown_columns(last.columns.drop_last()) + seq![
            shown_slots(last.columns.last()),
        ]);
    }
    proof {
        assert(columns_view(done@).len() == done@.len());
        assert(shown_columns(last.columns).len() == last.columns.len());
    }
    Layout { columns: done, progression: config.progression }
}

/// The first character of `s`, or a space if it has none.
fn first_char(s: &str) -> (c: char)
    ensures
        c == base_of(s@),
{
    if s.is_empty() {
        ' '
    } else {
        s.get_char(0)
    }
}

} // verus!
