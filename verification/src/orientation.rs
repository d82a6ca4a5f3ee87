//! Which way a run of text is set: vertically or horizontally, by a census of slots.

use crate::layout::{
    after_flush_all, after_flush_latin, after_flush_pending, after_flush_run, after_push,
    append_slots, finish, initial_state, latin_slots, lemma_latin_source, lemma_pending_source,
    model_of, ordered, pending_slots, plain, run_clusters, settle_separator, shown_columns, step,
    LayoutConfig, LayoutState, SlotKind, SlotModel,
};
use crate::text::{
    grapheme_clusters, graphemes, is_cjk, is_mongolian, is_suffix_separator, is_word_char,
    is_word_connector, is_line_break_char, spec_has_vertical_form, spec_is_corner_punctuation,
    spec_is_white_space, spec_is_cjk, spec_is_mongolian, spec_is_suffix_separator,
    spec_is_word_char, spec_is_word_connector, string_views,
};
use vstd::prelude::*;
use vstd::string::StrSliceExecFns;

verus! {

/// The running count of the orientation measure: vertical slots, horizontal slots, whose word
/// is open, and whether a suffix separator after a Mongolian run waits to learn what follows.
pub struct Tally {
    pub vertical: nat,
    pub horizontal: nat,
    pub in_latin: bool,
    pub in_bichig: bool,
    pub joint: bool,
}

pub open spec fn empty_tally() -> Tally {
    Tally { vertical: 0, horizontal: 0, in_latin: false, in_bichig: false, joint: false }
}

/// A waiting separator learns from the next base whether it joined a suffix: if that base is
/// not Mongolian, the run ended before the separator.
pub open spec fn tally_settle(t: Tally, base: char) -> Tally {
    if t.joint && !spec_is_mongolian(base) {
        Tally { in_bichig: false, joint: false, ..t }
    } else {
        Tally { joint: false, ..t }
    }
}

/// One cluster of the census. An ideograph is a vertical slot; a Mongolian run and a Latin word
/// each count once, where they begin; a connector inside a Latin word continues the word, and a
/// suffix separator inside a Mongolian run continues it if a Mongolian letter follows;
/// everything else closes the word and does not vote.
pub open spec fn tally_step(t0: Tally, cluster: Seq<char>) -> Tally {
    if cluster.len() == 0 {
        t0
    } else {
        let base = cluster[0];
        let t = tally_settle(t0, base);
        if spec_is_cjk(base) {
            Tally { vertical: t.vertical + 1, in_latin: false, in_bichig: false, ..t }
        } else if spec_is_mongolian(base) {
            Tally {
                vertical: if t.in_bichig {
                    t.vertical
                } else {
                    t.vertical + 1
                },
                in_latin: false,
                in_bichig: true,
                ..t
            }
        } else if spec_is_word_char(base) {
            Tally {
                horizontal: if t.in_latin {
                    t.horizontal
                } else {
                    t.horizontal + 1
                },
                in_latin: true,
                in_bichig: false,
                ..t
            }
        } else if t.in_latin && spec_is_word_connector(base) {
            t
        } else if t.in_bichig && spec_is_suffix_separator(base) {
            Tally { joint: true, ..t }
        } else {
            Tally { in_latin: false, in_bichig: false, ..t }
        }
    }
}

pub open spec fn tally_clusters(cs: Seq<Seq<char>>) -> Tally
    decreases cs.len(),
{
    if cs.len() == 0 {
        empty_tally()
    } else {
        tally_step(tally_clusters(cs.drop_last()), cs.last())
    }
}

/// The slot census of `text`: vertical slots, then horizontal ones.
pub open spec fn spec_measure(text: Seq<char>) -> (nat, nat) {
    let t = tally_clusters(grapheme_clusters(text));
    (t.vertical, t.horizontal)
}

/// The slot census behind [`prefers_horizontal`]: vertical slots (ideographs and Mongolian runs),
/// then horizontal ones (Latin words). Punctuation and whitespace do not vote.
pub fn measure_slots(text: &str) -> (counts: (usize, usize))
    ensures
        (counts.0 as nat, counts.1 as nat) == spec_measure(text@),
{
    let clusters = graphemes(text);
    measure_clusters(&clusters)
}

/// The slot census of text already cut into grapheme clusters: the part of `measure_slots`
/// that follows the segmentation, for every sequence of clusters.
pub fn measure_clusters(clusters: &Vec<String>) -> (counts: (usize, usize))
    ensures
        (counts.0 as nat, counts.1 as nat) == (
            tally_clusters(string_views(clusters@)).vertical,
            tally_clusters(string_views(clusters@)).horizontal,
        ),
{
    let ghost cs = string_views(clusters@);
    let mut vertical: usize = 0;
    let mut horizontal: usize = 0;
    let mut in_latin = false;
    let mut in_bichig = false;
    let mut joint = false;
    let mut i: usize = 0;
    assert(cs.take(0) =~= Seq::<Seq<char>>::empty());
    while i < clusters.len()
        invariant
            i <= clusters@.len(),
            cs == string_views(clusters@),
            vertical <= i,
            horizontal <= i,
            tally_clusters(cs.take(i as int)) == (Tally {
                vertical: vertical as nat,
                horizontal: horizontal as nat,
                in_latin,
                in_bichig,
                joint,
            }),
        decreases clusters@.len() - i,
    {
        let cluster = clusters[i].as_str();
        assert(cs.take(i + 1).drop_last() =~= cs.take(i as int));
        assert(cs.take(i + 1).last() == cluster@);
        if !cluster.is_empty() {
            let base = cluster.get_char(0);
            // A separator waiting after a run joined a suffix only if a Mongolian letter follows.
            if joint && !is_mongolian(base) {
                in_bichig = false;
            }
            joint = false;
            if is_cjk(base) {
                vertical = vertical + 1;
                in_latin = false;
                in_bichig = false;
            } else if is_mongolian(base) {
                // A Mongolian run is one slot, so only its start counts.
                if !in_bichig {
                    vertical = vertical + 1;
                }
                in_latin = false;
                in_bichig = true;
            } else if is_word_char(base) {
                // A whole Latin word is one slot; count only where it begins.
                if !in_latin {
                    horizontal = horizontal + 1;
                }
                in_latin = true;
                in_bichig = false;
            } else if in_latin && is_word_connector(base) {
                // Inside the word, as the layout reads it.
            } else if in_bichig && is_suffix_separator(base) {
                // The word may continue across the joint; the next cluster decides.
                joint = true;
            } else {
                in_latin = false;
                in_bichig = false;
            }
        }
        i = i + 1;
    }
    assert(cs.take(i as int) =~= cs);
    (vertical, horizontal)
}

/// Whether a run of text is better set horizontally than vertically: it has more Latin-word
/// slots than ideograph and Mongolian-run slots.
pub fn prefers_horizontal(text: &str) -> (r: bool)
    ensures
        r == (spec_measure(text@).1 > spec_measure(text@).0),
{
    let (vertical, horizontal) = measure_slots(text);
    horizontal > vertical
}

// ---------------------------------------------------------------------------------------------
// The census of a layout, and why it agrees with the measure.
// ---------------------------------------------------------------------------------------------

/// One slot of a column census: ideographs and Mongolian runs count as vertical slots; a Latin
/// word counts once however many slots its hyphenation spreads it over; nothing else counts.
pub open spec fn census_step(c: (nat, nat, bool), k: SlotKind) -> (nat, nat, bool) {
    match k {
        SlotKind::Upright => (c.0 + 1, c.1, false),
        SlotKind::MongolianRun => (c.0 + 1, c.1, false),
        SlotKind::LatinWord => (
            c.0,
            if c.2 {
                c.1
            } else {
                c.1 + 1
            },
            true,
        ),
        _ => (c.0, c.1, false),
    }
}

pub open spec fn census_from(c: (nat, nat, bool), ks: Seq<SlotKind>) -> (nat, nat, bool)
    decreases ks.len(),
{
    if ks.len() == 0 {
        c
    } else {
        census_step(census_from(c, ks.drop_last()), ks.last())
    }
}

pub open spec fn column_census(ks: Seq<SlotKind>) -> (nat, nat, bool) {
    census_from((0, 0, false), ks)
}

/// The census of a layout, column by column: vertical slots, then horizontal ones.
pub open spec fn layout_census(cols: Seq<Seq<(SlotKind, Seq<char>)>>) -> (nat, nat)
    decreases cols.len(),
{
    if cols.len() == 0 {
        (0, 0)
    } else {
        let r = layout_census(cols.drop_last());
        let c = column_census(cols.last().map_values(|s: (SlotKind, Seq<char>)| s.0));
        (r.0 + c.0, r.1 + c.1)
    }
}

pub open spec fn kinds(ms: Seq<SlotModel>) -> Seq<SlotKind> {
    ms.map_values(|m: SlotModel| m.kind)
}

pub open spec fn model_census(cols: Seq<Seq<SlotModel>>) -> (nat, nat)
    decreases cols.len(),
{
    if cols.len() == 0 {
        (0, 0)
    } else {
        let r = model_census(cols.drop_last());
        let c = column_census(kinds(cols.last()));
        (r.0 + c.0, r.1 + c.1)
    }
}

/// The census of the open column as if everything still open were set now, in source order.
pub open spec fn open_census(st: LayoutState) -> (nat, nat, bool) {
    let c0 = column_census(kinds(st.columns.last()));
    let c1 = if st.latin.len() > 0 {
        census_step(c0, SlotKind::LatinWord)
    } else {
        c0
    };
    let c2 = if st.pending.len() > 0 {
        census_step(c1, SlotKind::Neutral)
    } else {
        c1
    };
    let c3 = if st.run.len() > 0 {
        census_step(c2, SlotKind::MongolianRun)
    } else {
        c2
    };
    if st.separator.len() > 0 {
        census_step(c3, SlotKind::Space)
    } else {
        c3
    }
}

pub open spec fn counts_agree(t: Tally, st: LayoutState) -> bool {
    &&& t.vertical == model_census(st.columns.drop_last()).0 + open_census(st).0
    &&& t.horizontal == model_census(st.columns.drop_last()).1 + open_census(st).1
}

pub open spec fn in_step(t: Tally, st: LayoutState) -> bool {
    &&& ordered(st)
    &&& counts_agree(t, st)
    &&& t.in_latin == (st.latin.len() > 0)
    &&& t.in_bichig == (st.run.len() > 0)
    &&& t.in_bichig ==> !t.in_latin
    &&& t.joint == (st.separator.len() > 0)
    &&& st.run.len() == 0 ==> !column_census(kinds(st.columns.last())).2
}

proof fn lemma_census_append(c: (nat, nat, bool), a: Seq<SlotKind>, b: Seq<SlotKind>)
    ensures
        census_from(c, a + b) == census_from(census_from(c, a), b),
    decreases b.len(),
{
    if b.len() == 0 {
        assert(a + b =~= a);
    } else {
        lemma_census_append(c, a, b.drop_last());
        assert((a + b).drop_last() =~= a + b.drop_last());
    }
}

/// A run of one or more Latin slots counts as one word.
proof fn lemma_census_latin_run(c: (nat, nat, bool), ks: Seq<SlotKind>)
    requires
        ks.len() > 0,
        forall|i: int| 0 <= i < ks.len() ==> ks[i] == SlotKind::LatinWord,
    ensures
        census_from(c, ks) == census_step(c, SlotKind::LatinWord),
    decreases ks.len(),
{
    if ks.len() > 1 {
        lemma_census_latin_run(c, ks.drop_last());
        assert(ks.last() == SlotKind::LatinWord);
    } else {
        assert(ks.drop_last() =~= Seq::<SlotKind>::empty());
        assert(ks.last() == SlotKind::LatinWord);
        assert(census_from(c, Seq::<SlotKind>::empty()) == c);
    }
}

pub open spec fn votes(k: SlotKind) -> bool {
    k == SlotKind::Upright || k == SlotKind::MongolianRun || k == SlotKind::LatinWord
}

/// A run of one or more slots that do not vote counts as one such slot.
proof fn lemma_census_quiet_run(c: (nat, nat, bool), ks: Seq<SlotKind>)
    requires
        ks.len() > 0,
        forall|i: int| 0 <= i < ks.len() ==> !votes(ks[i]),
    ensures
        census_from(c, ks) == census_step(c, SlotKind::Neutral),
    decreases ks.len(),
{
    if ks.len() > 1 {
        lemma_census_quiet_run(c, ks.drop_last());
        assert(!votes(ks.last()));
    } else {
        assert(ks.drop_last() =~= Seq::<SlotKind>::empty());
        assert(!votes(ks.last()));
        assert(census_from(c, Seq::<SlotKind>::empty()) == c);
    }
}

proof fn lemma_model_census_append(cols: Seq<Seq<SlotModel>>, ms: Seq<SlotModel>)
    requires
        cols.len() >= 1,
    ensures
        append_slots(cols, ms).drop_last() == cols.drop_last(),
        kinds(append_slots(cols, ms).last()) == kinds(cols.last()) + kinds(ms),
        column_census(kinds(append_slots(cols, ms).last())) == census_from(
            column_census(kinds(cols.last())),
            kinds(ms),
        ),
{
    let a = append_slots(cols, ms);
    assert(a.drop_last() =~= cols.drop_last());
    assert(kinds(a.last()) =~= kinds(cols.last()) + kinds(ms));
    lemma_census_append((0, 0, false), kinds(cols.last()), kinds(ms));
}

proof fn lemma_kinds_single(m: SlotModel)
    ensures
        kinds(seq![m]) == seq![m.kind],
        census_from(
            column_census(Seq::empty()),
            seq![m.kind],
        ) == census_step((0, 0, false), m.kind),
{
    assert(kinds(seq![m]) =~= seq![m.kind]);
    assert(seq![m.kind].drop_last() =~= Seq::<SlotKind>::empty());
}

proof fn lemma_census_single(c: (nat, nat, bool), k: SlotKind)
    ensures
        census_from(c, seq![k]) == census_step(c, k),
{
    assert(seq![k].drop_last() =~= Seq::<SlotKind>::empty());
    assert(census_from(c, Seq::<SlotKind>::empty()) == c);
    assert(seq![k].last() == k);
}

proof fn lemma_open_flush_latin(st: LayoutState, cap: nat)
    requires
        st.columns.len() >= 1,
    ensures
        open_census(after_flush_latin(st, cap)) == open_census(st),
        after_flush_latin(st, cap).columns.drop_last() == st.columns.drop_last(),
        after_flush_latin(st, cap).columns.len() == st.columns.len(),
{
    if st.latin.len() > 0 {
        let ms = latin_slots(st.latin, cap);
        lemma_latin_source(st.latin, cap);
        lemma_model_census_append(st.columns, ms);
        assert forall|i: int| 0 <= i < kinds(ms).len() implies kinds(ms)[i] == SlotKind::LatinWord by {
            assert(ms[i].kind == SlotKind::LatinWord);
        }
        lemma_census_latin_run(column_census(kinds(st.columns.last())), kinds(ms));
    }
}

proof fn lemma_open_flush_pending(st: LayoutState)
    requires
        st.columns.len() >= 1,
        st.latin.len() == 0,
    ensures
        open_census(after_flush_pending(st)) == open_census(st),
        after_flush_pending(st).columns.drop_last() == st.columns.drop_last(),
        after_flush_pending(st).columns.len() == st.columns.len(),
{
    if st.pending.len() > 0 {
        let ms = pending_slots(st.pending);
        lemma_pending_source(st.pending);
        lemma_model_census_append(st.columns, ms);
        assert forall|i: int| 0 <= i < kinds(ms).len() implies !votes(kinds(ms)[i]) by {
            assert(kinds(ms)[i] == ms[i].kind);
        }
        lemma_census_quiet_run(column_census(kinds(st.columns.last())), kinds(ms));
    }
}

proof fn lemma_open_flush_run(st: LayoutState)
    requires
        st.columns.len() >= 1,
        st.run.len() > 0 ==> st.latin.len() == 0 && st.pending.len() == 0,
    ensures
        open_census(after_flush_run(st)) == open_census(st),
        after_flush_run(st).columns.drop_last() == st.columns.drop_last(),
        after_flush_run(st).columns.len() == st.columns.len(),
{
    if st.run.len() > 0 {
        let m = plain(SlotKind::MongolianRun, st.run);
        lemma_model_census_append(st.columns, seq![m]);
        lemma_kinds_single(m);
        lemma_census_single(column_census(kinds(st.columns.last())), SlotKind::MongolianRun);
    }
}

proof fn lemma_open_push(st: LayoutState, m: SlotModel)
    requires
        st.columns.len() >= 1,
    ensures
        column_census(kinds(after_push(st, m).columns.last())) == census_step(
            column_census(kinds(st.columns.last())),
            m.kind,
        ),
        after_push(st, m).columns.drop_last() == st.columns.drop_last(),
        after_push(st, m).columns.len() == st.columns.len(),
{
    lemma_model_census_append(st.columns, seq![m]);
    lemma_kinds_single(m);
    lemma_census_single(column_census(kinds(st.columns.last())), m.kind);
}

proof fn lemma_open_flush_all(st: LayoutState, cap: nat)
    requires
        ordered(st),
        st.separator.len() == 0,
    ensures
        open_census(after_flush_all(st, cap)) == open_census(st),
        after_flush_all(st, cap).columns.drop_last() == st.columns.drop_last(),
        after_flush_all(st, cap).columns.len() == st.columns.len(),
        column_census(kinds(after_flush_all(st, cap).columns.last())) == open_census(st),
{
    lemma_open_flush_latin(st, cap);
    let a = after_flush_latin(st, cap);
    lemma_open_flush_run(a);
    let b = after_flush_run(a);
    lemma_open_flush_pending(b);
}

proof fn lemma_open_settle(st: LayoutState, base: char)
    requires
        ordered(st),
    ensures
        open_census(settle_separator(st, base)) == open_census(st),
        settle_separator(st, base).columns.drop_last() == st.columns.drop_last(),
        settle_separator(st, base).columns.len() == st.columns.len(),
        settle_separator(st, base).separator.len() > 0 ==> settle_separator(st, base) == st,
{
    if st.separator.len() > 0 && !spec_is_mongolian(base) {
        lemma_open_flush_run(st);
        let f = after_flush_run(st);
        lemma_open_push(f, plain(SlotKind::Space, st.separator));
    }
}

proof fn lemma_classes(b: char)
    ensures
        spec_is_white_space(b) ==> !spec_is_cjk(b) && !spec_is_mongolian(b) && !spec_is_word_char(b)
            && !spec_is_word_connector(b),
        is_line_break_char(b) ==> spec_is_white_space(b),
        spec_is_suffix_separator(b) ==> spec_is_white_space(b),
        spec_is_cjk(b) ==> !spec_is_mongolian(b) && !spec_is_word_char(b) && !spec_is_word_connector(
            b,
        ) && !spec_is_corner_punctuation(b) && !spec_has_vertical_form(b),
        spec_is_mongolian(b) ==> !spec_is_word_char(b) && !spec_is_word_connector(b),
        spec_is_word_connector(b) ==> !spec_is_cjk(b) && !spec_is_mongolian(b),
{
}

/// One cluster keeps the measure's tally and the layout's state in step.
proof fn lemma_in_step(t: Tally, st: LayoutState, cluster: Seq<char>, cap: nat)
    requires
        in_step(t, st),
    ensures
        in_step(tally_step(t, cluster), step(st, cluster, cap)),
{
    if cluster.len() > 0 {
        let b = cluster[0];
        lemma_classes(b);
        let t2 = tally_step(t, cluster);
        let n = step(st, cluster, cap);
        lemma_open_settle(st, b);
        let s = settle_separator(st, b);
        crate::layout::lemma_settle_source(st, b);
        crate::layout::lemma_step_source(st, cluster, cap);
        if is_line_break_char(b) {
            lemma_open_flush_all(s, cap);
            let f = after_flush_all(s, cap);
            crate::layout::lemma_flush_all_source(s, cap);
            assert(n.columns == f.columns.push(Seq::empty()));
            assert(n.columns.drop_last() =~= f.columns);
            assert(f.columns =~= f.columns.drop_last().push(f.columns.last()));
            assert(model_census(f.columns) == (
                model_census(f.columns.drop_last()).0 + column_census(kinds(f.columns.last())).0,
                model_census(f.columns.drop_last()).1 + column_census(kinds(f.columns.last())).1,
            ));
            assert(kinds(n.columns.last()) =~= Seq::<SlotKind>::empty());
        } else if spec_is_white_space(b) {
            if spec_is_suffix_separator(b) && s.run.len() > 0 {
                assert(s == st);
            } else {
                lemma_open_flush_all(s, cap);
                let f = after_flush_all(s, cap);
                crate::layout::lemma_flush_all_source(s, cap);
                lemma_open_push(f, plain(SlotKind::Space, cluster));
            }
        } else if spec_is_mongolian(b) {
            assert(s == st);
            lemma_open_flush_latin(s, cap);
            let a = after_flush_latin(s, cap);
            lemma_open_flush_pending(a);
            crate::layout::lemma_flush_latin_source(s, cap);
            crate::layout::lemma_flush_pending_source(a);
        } else if spec_is_word_char(b) {
            lemma_open_flush_run(s);
            let f = after_flush_run(s);
            crate::layout::lemma_flush_run_source(s);
            if st.run.len() > 0 {
                assert(column_census(kinds(f.columns.last())).2 == false);
            }
        } else if spec_is_word_connector(b) && (s.may_join || s.latin.len() > 0) {
        } else {
            lemma_open_flush_all(s, cap);
            let f = after_flush_all(s, cap);
            crate::layout::lemma_flush_all_source(s, cap);
            lemma_open_push(f, plain(crate::layout::cluster_kind(b), cluster));
        }
    }
}

proof fn lemma_in_step_run(cs: Seq<Seq<char>>, cap: nat)
    ensures
        in_step(tally_clusters(cs), run_clusters(cs, cap)),
    decreases cs.len(),
{
    if cs.len() == 0 {
        let st = initial_state();
        assert(st.columns.drop_last() =~= Seq::<Seq<SlotModel>>::empty());
        assert(kinds(st.columns.last()) =~= Seq::<SlotKind>::empty());
        assert(model_census(st.columns.drop_last()) == (0nat, 0nat));
        assert(column_census(kinds(st.columns.last())) == (0nat, 0nat, false));
    } else {
        lemma_in_step_run(cs.drop_last(), cap);
        lemma_in_step(tally_clusters(cs.drop_last()), run_clusters(cs.drop_last(), cap), cs.last(), cap);
    }
}

proof fn lemma_finish_census(st: LayoutState, cap: nat)
    requires
        ordered(st),
    ensures
        model_census(finish(st, cap).columns) == (
            model_census(st.columns.drop_last()).0 + open_census(st).0,
            model_census(st.columns.drop_last()).1 + open_census(st).1,
        ),
{
    lemma_open_flush_latin(st, cap);
    let a = after_flush_latin(st, cap);
    lemma_open_flush_run(a);
    let f = after_flush_run(a);
    let g = if f.separator.len() > 0 {
        LayoutState { separator: Seq::empty(), ..after_push(f, plain(SlotKind::Space, f.separator)) }
    } else {
        f
    };
    if f.separator.len() > 0 {
        lemma_open_push(f, plain(SlotKind::Space, f.separator));
        assert(open_census(g) == open_census(f));
    }
    lemma_open_flush_pending(g);
    let h = finish(st, cap);
    assert(h.columns =~= h.columns.drop_last().push(h.columns.last()));
    assert(h.columns.drop_last() == st.columns.drop_last());
}

proof fn lemma_layout_census(cols: Seq<Seq<SlotModel>>)
    ensures
        layout_census(shown_columns(cols)) == model_census(cols),
    decreases cols.len(),
{
    if cols.len() > 0 {
        lemma_layout_census(cols.drop_last());
        assert(shown_columns(cols).drop_last() =~= shown_columns(cols.drop_last()));
        assert(shown_columns(cols).last().map_values(|s: (SlotKind, Seq<char>)| s.0) =~= kinds(
            cols.last(),
        ));
    }
}

/// The orientation measure and the layout agree about what a slot is: for every text, the
/// vertical count of `measure_slots` is the number of `Upright` and `MongolianRun` slots that
/// `layout_text` sets, and its horizontal count is the number of Latin words among them, where
/// the pieces of one hyphenated word in a column count once.
pub proof fn measure_counts_the_layouts_slots(text: Seq<char>, config: LayoutConfig)
    ensures
        layout_census(shown_columns(model_of(text, config).columns)) == spec_measure(text),
{
    let cs = grapheme_clusters(text);
    let cap = config.max_latin_word_width as nat;
    lemma_in_step_run(cs, cap);
    lemma_finish_census(run_clusters(cs, cap), cap);
    lemma_layout_census(model_of(text, config).columns);
}

// ---------------------------------------------------------------------------------------------
// A word and its transliteration weigh the same in either order.
// ---------------------------------------------------------------------------------------------

pub open spec fn tally_from(t: Tally, cs: Seq<Seq<char>>) -> Tally
    decreases cs.len(),
{
    if cs.len() == 0 {
        t
    } else {
        tally_step(tally_from(t, cs.drop_last()), cs.last())
    }
}

proof fn lemma_tally_from_empty(cs: Seq<Seq<char>>)
    ensures
        tally_clusters(cs) == tally_from(empty_tally(), cs),
    decreases cs.len(),
{
    if cs.len() > 0 {
        lemma_tally_from_empty(cs.drop_last());
    }
}

proof fn lemma_tally_from_append(t: Tally, a: Seq<Seq<char>>, b: Seq<Seq<char>>)
    ensures
        tally_from(t, a + b) == tally_from(tally_from(t, a), b),
    decreases b.len(),
{
    if b.len() == 0 {
        assert(a + b =~= a);
    } else {
        lemma_tally_from_append(t, a, b.drop_last());
        assert((a + b).drop_last() =~= a + b.drop_last());
    }
}

/// Clusters that are all Latin letters, digits or underscores: one Latin word.
pub open spec fn latin_word_clusters(cs: Seq<Seq<char>>) -> bool {
    &&& cs.len() > 0
    &&& forall|i: int| 0 <= i < cs.len() ==> (#[trigger] cs[i]).len() > 0 && spec_is_word_char(cs[i][0])
}

/// Clusters that all begin with a Mongolian letter: one run of bichig.
pub open spec fn bichig_clusters(cs: Seq<Seq<char>>) -> bool {
    &&& cs.len() > 0
    &&& forall|i: int| 0 <= i < cs.len() ==> (#[trigger] cs[i]).len() > 0 && spec_is_mongolian(cs[i][0])
}

proof fn lemma_tally_word(t: Tally, cs: Seq<Seq<char>>)
    requires
        latin_word_clusters(cs),
    ensures
        tally_from(t, cs) == (Tally {
            vertical: t.vertical,
            horizontal: if t.in_latin {
                t.horizontal
            } else {
                t.horizontal + 1
            },
            in_latin: true,
            in_bichig: false,
            joint: false,
        }),
    decreases cs.len(),
{
    lemma_classes(cs[cs.len() - 1][0]);
    assert(cs.last() == cs[cs.len() - 1]);
    if cs.len() > 1 {
        let p = cs.drop_last();
        assert forall|i: int| 0 <= i < p.len() implies (#[trigger] p[i]).len() > 0 && spec_is_word_char(
            p[i][0],
        ) by {
            assert(p[i] == cs[i]);
        }
        lemma_tally_word(t, p);
    } else {
        assert(cs.drop_last() =~= Seq::<Seq<char>>::empty());
    }
}

proof fn lemma_tally_bichig(t: Tally, cs: Seq<Seq<char>>)
    requires
        bichig_clusters(cs),
    ensures
        tally_from(t, cs) == (Tally {
            vertical: if t.in_bichig {
                t.vertical
            } else {
                t.vertical + 1
            },
            horizontal: t.horizontal,
            in_latin: false,
            in_bichig: true,
            joint: false,
        }),
    decreases cs.len(),
{
    let c = cs[cs.len() - 1];
    assert(cs.last() == c);
    assert(c.len() > 0 && spec_is_mongolian(c[0]));
    lemma_classes(c[0]);
    let prev = tally_from(t, cs.drop_last());
    if cs.len() > 1 {
        let p = cs.drop_last();
        assert forall|i: int| 0 <= i < p.len() implies (#[trigger] p[i]).len() > 0 && spec_is_mongolian(
            p[i][0],
        ) by {
            assert(p[i] == cs[i]);
        }
        lemma_tally_bichig(t, p);
        assert(prev.in_bichig);
    } else {
        assert(cs.drop_last() =~= Seq::<Seq<char>>::empty());
        assert(prev == t);
    }
    let settled = tally_settle(prev, c[0]);
    assert(settled.in_bichig == prev.in_bichig);
    assert(tally_from(t, cs) == tally_step(prev, c));
}

proof fn lemma_tally_one(t: Tally, c: Seq<char>)
    ensures
        tally_from(t, seq![c]) == tally_step(t, c),
{
    assert(seq![c].drop_last() =~= Seq::<Seq<char>>::empty());
    assert(seq![c].last() == c);
    assert(tally_from(t, Seq::<Seq<char>>::empty()) == t);
}

/// Swapping a word and its transliteration keeps the vote: a Latin word followed by its bichig
/// in brackets, and the bichig followed by the Latin word in brackets, weigh the same in the
/// slot census, when no word is open before them and a space (or nothing) follows them.
pub proof fn swapping_a_word_and_its_transliteration_keeps_the_vote(
    pre: Seq<Seq<char>>,
    word: Seq<Seq<char>>,
    bichig: Seq<Seq<char>>,
    post: Seq<Seq<char>>,
)
    requires
        latin_word_clusters(word),
        bichig_clusters(bichig),
        !tally_clusters(pre).in_latin,
        !tally_clusters(pre).in_bichig,
        !tally_clusters(pre).joint,
        post.len() > 0 ==> post[0] == seq![' '],
    ensures
        ({
            let a = tally_clusters(pre + bichig + seq![seq!['(']] + word + seq![seq![')']] + post);
            let b = tally_clusters(pre + word + seq![seq!['(']] + bichig + seq![seq![')']] + post);
            a.vertical == b.vertical && a.horizontal == b.horizontal
        }),
{
    let open = seq![seq!['(']];
    let close = seq![seq![')']];
    let t = tally_clusters(pre);
    lemma_tally_from_empty(pre);
    lemma_tally_from_empty(pre + bichig + open + word + close + post);
    lemma_tally_from_empty(pre + word + open + bichig + close + post);
    lemma_tally_from_append(empty_tally(), pre, bichig + open + word + close + post);
    lemma_tally_from_append(empty_tally(), pre, word + open + bichig + close + post);
    assert(pre + bichig + open + word + close + post =~= pre + (bichig + open + word + close + post));
    assert(pre + word + open + bichig + close + post =~= pre + (word + open + bichig + close + post));
    lemma_tally_from_append(t, bichig + open + word + close, post);
    lemma_tally_from_append(t, word + open + bichig + close, post);
    lemma_tally_from_append(t, bichig + open + word, close);
    lemma_tally_from_append(t, word + open + bichig, close);
    lemma_tally_from_append(t, bichig + open, word);
    lemma_tally_from_append(t, word + open, bichig);
    lemma_tally_from_append(t, bichig, open);
    lemma_tally_from_append(t, word, open);
    lemma_classes('(');
    lemma_classes(')');
    lemma_classes(' ');
    // Bichig, then its word in brackets.
    lemma_tally_bichig(t, bichig);
    let a1 = tally_from(t, bichig);
    lemma_tally_one(a1, seq!['(']);
    let a2 = tally_from(a1, open);
    lemma_tally_word(a2, word);
    let a3 = tally_from(a2, word);
    lemma_tally_one(a3, seq![')']);
    let a4 = tally_from(a3, close);
    // The word, then its bichig in brackets.
    lemma_tally_word(t, word);
    let b1 = tally_from(t, word);
    lemma_tally_one(b1, seq!['(']);
    let b2 = tally_from(b1, open);
    lemma_tally_bichig(b2, bichig);
    let b3 = tally_from(b2, bichig);
    lemma_tally_one(b3, seq![')']);
    let b4 = tally_from(b3, close);
    assert(a4.vertical == b4.vertical && a4.horizontal == b4.horizontal);
    let xa = bichig + open + word + close + post;
    let xb = word + open + bichig + close + post;
    assert(tally_from(t, xa) == tally_from(a4, post));
    assert(tally_from(t, xb) == tally_from(b4, post));
    if post.len() > 0 {
        let rest = post.subrange(1, post.len() as int);
        assert(post =~= seq![seq![' ']] + rest);
        lemma_tally_from_append(a4, seq![seq![' ']], rest);
        lemma_tally_from_append(b4, seq![seq![' ']], rest);
        lemma_tally_one(a4, seq![' ']);
        lemma_tally_one(b4, seq![' ']);
        assert(spec_is_white_space(' '));
        assert(seq![' '][0] == ' ');
        assert(tally_step(a4, seq![' ']) == tally_step(b4, seq![' ']));
        assert(tally_from(a4, seq![seq![' ']]) == tally_from(b4, seq![seq![' ']]));
    }
}

/// Ideographs, kana and Hangul are set upright: every character of the CJK ideograph blocks
/// (U+3400–4DBF, U+4E00–9FFF, U+F900–FAFF), of kana (U+3040–30FF, U+31F0–31FF) and every Hangul
/// syllable (U+AC00–D7AF) is upright, a cluster it leads is laid out as an `Upright` slot, and
/// it is a vertical vote in the slot census.
pub proof fn upright_scripts_vote_vertical(c: char, cluster: Seq<char>, t: Tally)
    requires
        0x3400 <= c as u32 <= 0x4DBF || 0x4E00 <= c as u32 <= 0x9FFF || 0xF900 <= c as u32 <= 0xFAFF
            || 0x3040 <= c as u32 <= 0x30FF || 0x31F0 <= c as u32 <= 0x31FF || 0xAC00 <= c as u32
            <= 0xD7AF,
        cluster.len() > 0,
        cluster[0] == c,
    ensures
        spec_is_cjk(c),
        crate::layout::cluster_kind(c) == SlotKind::Upright,
        tally_step(t, cluster).vertical == t.vertical + 1,
        tally_step(t, cluster).horizontal == t.horizontal,
{
    lemma_classes(c);
}

} // verus!
