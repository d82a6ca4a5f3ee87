//! What a browser host asks of the library: the strip rendered under bit flags, and the source
//! map of a strip laid out as one vertical block, with that map as JSON.

use crate::geometry::{
    layout_with_source_map, lemma_walk_counts, map_is_walk, own_walk, spec_slot_count, SlotSource,
    SlotSourceView, SourceMap,
};
use crate::html::{
    block_html, code_config, columns_html, document_html, ends_open, laid_out, leans_horizontal, marker_mode,
    mode_block, mode_column_class, prose_config, render_document, render_segments, root_open,
    segment_step, segments_of, spec_code_config, spec_prose_config, split_run, trim_newlines, Mode,
    RenderOptions, Rendered,
};
use crate::layout::{model_of, Progression};
use crate::orientation::prefers_horizontal;
use crate::text::{chars_of, decimal, push_decimal};
use vstd::prelude::*;
use vstd::string::StrSliceExecFns;
use vstd::string::StringExecFns;

verus! {

/// Lay the whole input out as code.
pub const CODE: u32 = 1;

/// Mark the strip as the page's surface.
pub const PAGE: u32 = 2;

/// Columns advance left to right.
pub const LEFT_TO_RIGHT: u32 = 4;

pub open spec fn flag_set(flags: u32, flag: u32) -> bool {
    flags & flag != 0
}

pub open spec fn flag_progression(flags: u32) -> Progression {
    if flag_set(flags, LEFT_TO_RIGHT) {
        Progression::LeftToRight
    } else {
        Progression::RightToLeft
    }
}

pub open spec fn flag_options(flags: u32) -> RenderOptions {
    RenderOptions {
        whole_strip_code: flag_set(flags, CODE),
        page: flag_set(flags, PAGE),
        progression: flag_progression(flags),
    }
}

fn progression(flags: u32) -> (p: Progression)
    ensures
        p == flag_progression(flags),
{
    if flags & LEFT_TO_RIGHT != 0 {
        Progression::LeftToRight
    } else {
        Progression::RightToLeft
    }
}

/// The options that the equivalent command-line flags select.
pub fn options(flags: u32) -> (o: RenderOptions)
    ensures
        o == flag_options(flags),
{
    RenderOptions {
        whole_strip_code: flags & CODE != 0,
        page: flags & PAGE != 0,
        progression: progression(flags),
    }
}

/// The strip `input` renders to under `flags`.
pub fn render(input: &str, flags: u32) -> (html: String)
    ensures
        html@ == document_html(input@, flag_options(flags)),
{
    render_document(input, options(flags))
}

/// `s` without the line ends (LF or CR) that end it.
pub open spec fn trim_line_ends(s: Seq<char>) -> Seq<char>
    decreases s.len(),
{
    if s.len() > 0 && (s.last() == '\n' || s.last() == '\r') {
        trim_line_ends(s.drop_last())
    } else {
        s
    }
}

/// A codepoint of the private-use block that the mode protocol reserves.
pub open spec fn is_reserved(c: char) -> bool {
    0xE000 <= (c as u32) <= 0xE0FF
}

/// The rule set a strip is mapped under.
pub open spec fn map_config(flags: u32) -> crate::layout::LayoutConfig {
    if flag_set(flags, CODE) {
        spec_code_config(flag_progression(flags))
    } else {
        spec_prose_config(flag_progression(flags))
    }
}

/// Whether `text` is set as one vertical block under `flags`: it holds no reserved codepoint,
/// and it is code or its prose does not lean horizontal.
pub open spec fn single_vertical(text: Seq<char>, flags: u32) -> bool {
    &&& forall|k: int| 0 <= k < text.len() ==> !is_reserved(#[trigger] text[k])
    &&& (flag_set(flags, CODE) || !leans_horizontal(text))
}

fn trim_trailing_line_ends(s: &str) -> (t: &str)
    ensures
        t@ == trim_line_ends(s@),
{
    let chars = chars_of(s);
    let mut k = chars.len();
    assert(s@.take(k as int) =~= s@);
    while k > 0 && (chars[k - 1] == '\n' || chars[k - 1] == '\r')
        invariant
            k <= chars@.len(),
            chars@ == s@,
            trim_line_ends(s@) == trim_line_ends(s@.take(k as int)),
        decreases k,
    {
        assert(s@.take(k as int).drop_last() =~= s@.take(k - 1));
        k = k - 1;
    }
    assert(k == 0 ==> s@.take(k as int) =~= Seq::<char>::empty());
    s.substring_char(0, k)
}

fn has_reserved(text: &str) -> (r: bool)
    ensures
        r == !(forall|k: int| 0 <= k < text@.len() ==> !is_reserved(#[trigger] text@[k])),
{
    let chars = chars_of(text);
    let mut i: usize = 0;
    while i < chars.len()
        invariant
            i <= chars@.len(),
            chars@ == text@,
            forall|k: int| 0 <= k < i ==> !is_reserved(#[trigger] text@[k]),
        decreases chars@.len() - i,
    {
        let c = chars[i] as u32;
        if 0xE000 <= c && c <= 0xE0FF {
            assert(is_reserved(text@[i as int]));
            return true;
        }
        i = i + 1;
    }
    false
}

/// The source map of `input`, without the line ends that end it, laid out as one vertical
/// strip; `None` exactly where the renderer would not lay it out that way (it carries mode
/// markers, or its prose leans horizontal). Every such strip has its map, with as many columns,
/// and as many slots in each, as the layout the renderer draws for it.
pub fn map(input: &str, flags: u32) -> (r: Option<SourceMap>)
    ensures
        r is Some <==> single_vertical(trim_line_ends(input@), flags),
        r matches Some(m) ==> map_is_walk(
            m@,
            trim_line_ends(input@),
            own_walk(trim_line_ends(input@), map_config(flags))->Ok_0,
        ),
        r matches Some(m) ==> m@.columns.len() == laid_out(trim_line_ends(input@), map_config(flags)).len(),
        r matches Some(m) ==> forall|c: int|
            0 <= c < m@.columns.len() ==> #[trigger] spec_slot_count(m@, c) == laid_out(
                trim_line_ends(input@),
                map_config(flags),
            )[c].len(),
{
    let text = trim_trailing_line_ends(input);
    let code = flags & CODE != 0;
    if has_reserved(text) {
        return None;
    }
    if !code && prefers_horizontal(text) {
        return None;
    }
    let config = if code {
        code_config(progression(flags))
    } else {
        prose_config(progression(flags))
    };
    let (_, m) = layout_with_source_map(text, &config);
    Some(m)
}


pub open spec fn bool_json(b: bool) -> Seq<char> {
    if b {
        "true"@
    } else {
        "false"@
    }
}

/// One slot: its source range, its grapheme count, and whether it ends in an inserted hyphen.
pub open spec fn slot_json(s: SlotSourceView) -> Seq<char> {
    "{\"start\":"@ + decimal(s.start as nat) + ",\"end\":"@ + decimal(s.end as nat)
        + ",\"graphemes\":"@ + decimal((s.boundaries.len() - 1) as nat) + ",\"hyphen\":"@
        + bool_json(s.inserted_hyphen) + "}"@
}

/// The items, separated by commas.
pub open spec fn comma_list(items: Seq<Seq<char>>) -> Seq<char>
    decreases items.len(),
{
    if items.len() == 0 {
        Seq::empty()
    } else if items.len() == 1 {
        items[0]
    } else {
        comma_list(items.drop_last()) + ","@ + items.last()
    }
}

pub open spec fn in_column(s: SlotSourceView, c: nat) -> bool {
    s.column == c
}

/// The slots of column `c`, in order, as a JSON list.
pub open spec fn column_json(slots: Seq<SlotSourceView>, c: nat) -> Seq<char> {
    "["@ + comma_list(slots.filter(|s: SlotSourceView| in_column(s, c)).map_values(
        |s: SlotSourceView| slot_json(s),
    )) + "]"@
}

/// The map as JSON: for each column, each of its slots.
pub open spec fn map_json_text(m: crate::geometry::SourceMapView) -> Seq<char> {
    "{\"columns\":["@ + comma_list(Seq::new(m.columns.len(), |c: int| column_json(m.slots, c as nat)))
        + "]}"@
}

proof fn lemma_decimal_nonempty(n: nat)
    ensures
        decimal(n).len() >= 1,
{
}

proof fn lemma_comma_list_empty(items: Seq<Seq<char>>)
    requires
        forall|i: int| 0 <= i < items.len() ==> (#[trigger] items[i]).len() >= 1,
    ensures
        comma_list(items).len() == 0 <==> items.len() == 0,
{
    if items.len() > 1 {
        assert(items.last() == items[items.len() - 1]);
    }
}

fn push_slot_json(out: &mut String, s: &SlotSource)
    requires
        s@.boundaries.len() >= 1,
    ensures
        final(out)@ == old(out)@ + slot_json(s@),
{
    out.append("{\"start\":");
    push_decimal(out, s.start());
    out.append(",\"end\":");
    push_decimal(out, s.end());
    out.append(",\"graphemes\":");
    push_decimal(out, s.graphemes());
    out.append(",\"hyphen\":");
    if s.ends_in_inserted_hyphen() {
        out.append("true");
    } else {
        out.append("false");
    }
    out.append("}");
    assert(out@ =~= old(out)@ + slot_json(s@));
}

/// The JSON of the slots of column `c` among the first `j` slots.
pub open spec fn bucket(slots: Seq<SlotSourceView>, j: int, c: nat) -> Seq<char> {
    comma_list(slots.take(j).filter(|s: SlotSourceView| in_column(s, c)).map_values(
        |s: SlotSourceView| slot_json(s),
    ))
}

proof fn lemma_bucket_step(slots: Seq<SlotSourceView>, j: int, c: nat)
    requires
        0 <= j < slots.len(),
        forall|k: int| 0 <= k < slots.len() ==> (#[trigger] slots[k]).boundaries.len() >= 1,
    ensures
        bucket(slots, j + 1, c) == if in_column(slots[j], c) {
            if bucket(slots, j, c).len() == 0 {
                slot_json(slots[j])
            } else {
                bucket(slots, j, c) + ","@ + slot_json(slots[j])
            }
        } else {
            bucket(slots, j, c)
        },
{
    let pred = |s: SlotSourceView| in_column(s, c);
    let f = |s: SlotSourceView| slot_json(s);
    reveal(Seq::filter);
    assert(slots.take(j + 1).drop_last() =~= slots.take(j));
    assert(slots.take(j + 1).last() == slots[j]);
    let before = slots.take(j).filter(pred).map_values(f);
    assert forall|i: int| 0 <= i < before.len() implies (#[trigger] before[i]).len() >= 1 by {
        lemma_decimal_nonempty(slots.take(j).filter(pred)[i].start as nat);
    }
    lemma_comma_list_empty(before);
    if in_column(slots[j], c) {
        let after = slots.take(j + 1).filter(pred).map_values(f);
        assert(after =~= before.push(slot_json(slots[j])));
        assert(after.drop_last() =~= before);
    } else {
        assert(slots.take(j + 1).filter(pred) == slots.take(j).filter(pred));
    }
}

/// The map as JSON: for each column, each slot's source range, grapheme count and whether it
/// ends in an inserted hyphen.
#[verifier::rlimit(30)]
pub fn map_json(map: &SourceMap) -> (json: String)
    ensures
        json@ == map_json_text(map@),
{
    let n = map.columns();
    let slots = map.slots();
    let ghost sv = map@.slots;
    let mut buckets: Vec<String> = Vec::new();
    let mut c: usize = 0;
    while c < n
        invariant
            c <= n,
            buckets@.len() == c,
            forall|k: int| 0 <= k < c ==> (#[trigger] buckets@[k])@ == Seq::<char>::empty(),
        decreases n - c,
    {
        buckets.push(String::new());
        c = c + 1;
    }
    let mut j: usize = 0;
    assert forall|k: int| 0 <= k < n implies (#[trigger] buckets@[k])@ == bucket(sv, 0, k as nat) by {
        assert(sv.take(0) =~= Seq::<SlotSourceView>::empty());
        reveal(Seq::filter);
        assert(sv.take(0).filter(|s: SlotSourceView| in_column(s, k as nat)).map_values(
            |s: SlotSourceView| slot_json(s),
        ) =~= Seq::<Seq<char>>::empty());
    }
    while j < slots.len()
        invariant
            j <= slots@.len(),
            n == map@.columns.len(),
            sv == map@.slots,
            slots@.map_values(|x: SlotSource| x@) == sv,
            forall|k: int| 0 <= k < sv.len() ==> (#[trigger] sv[k]).boundaries.len() >= 1,
            buckets@.len() == n,
            forall|k: int| 0 <= k < n ==> (#[trigger] buckets@[k])@ == bucket(sv, j as int, k as nat),
        decreases slots@.len() - j,
    {
        let s = &slots[j];
        assert(sv[j as int] == s@);
        let column = s.column();
        if column < n {
            let mut b = String::new();
            core::mem::swap(&mut b, &mut buckets[column]);
            if !b.as_str().is_empty() {
                b.append(",");
            }
            push_slot_json(&mut b, s);
            buckets.set(column, b);
        }
        proof {
            assert forall|k: int| 0 <= k < n implies (#[trigger] buckets@[k])@ == bucket(
                sv,
                j + 1,
                k as nat,
            ) by {
                lemma_bucket_step(sv, j as int, k as nat);
            }
        }
        j = j + 1;
    }
    assert(sv.take(j as int) =~= sv);
    let mut json = String::new();
    json.append("{\"columns\":[");
    let ghost start = json@;
    let ghost items = Seq::new(n as nat, |k: int| column_json(sv, k as nat));
    let mut c: usize = 0;
    assert(items.take(0) =~= Seq::<Seq<char>>::empty());
    while c < n
        invariant
            c <= n,
            buckets@.len() == n,
            items == Seq::new(n as nat, |k: int| column_json(sv, k as nat)),
            forall|k: int| 0 <= k < n ==> (#[trigger] buckets@[k])@ == bucket(sv, sv.len() as int, k as nat),
            sv.take(sv.len() as int) == sv,
            json@ == start + comma_list(items.take(c as int)),
        decreases n - c,
    {
        if c > 0 {
            json.append(",");
        }
        json.append("[");
        json.append(buckets[c].as_str());
        json.append("]");
        assert(items.take(c + 1).drop_last() =~= items.take(c as int));
        assert(items[c as int] == column_json(sv, c as nat));
        assert(json@ =~= start + comma_list(items.take(c + 1)));
        c = c + 1;
    }
    assert(items.take(n as int) =~= items);
    json.append("]}");
    assert(json@ =~= map_json_text(map@));
    json
}


/// A line end or a character of `t`.
proof fn lemma_line_ends_within(s: Seq<char>)
    ensures
        forall|k: int|
            0 <= k < s.len() ==> #[trigger] s[k] == '\n' || s[k] == '\r' || trim_line_ends(s).contains(
                s[k],
            ),
    decreases s.len(),
{
    if s.len() > 0 && (s.last() == '\n' || s.last() == '\r') {
        lemma_line_ends_within(s.drop_last());
        assert forall|k: int|
            0 <= k < s.len() implies #[trigger] s[k] == '\n' || s[k] == '\r' || trim_line_ends(
            s,
        ).contains(s[k]) by {
            if k < s.len() - 1 {
                assert(s[k] == s.drop_last()[k]);
            }
        }
    } else {
        assert forall|k: int| 0 <= k < s.len() implies trim_line_ends(s).contains(#[trigger] s[k]) by {}
    }
}

proof fn lemma_split_unmarked(text: Seq<char>)
    requires
        forall|k: int| 0 <= k < text.len() ==> marker_mode(#[trigger] text[k]) is None,
    ensures
        split_run(text) == (Seq::<(Mode, Seq<char>)>::empty(), (Mode::Prose, text)),
    decreases text.len(),
{
    if text.len() > 0 {
        assert forall|k: int| 0 <= k < text.drop_last().len() implies marker_mode(
            #[trigger] text.drop_last()[k],
        ) is None by {
            assert(text.drop_last()[k] == text[k]);
        }
        lemma_split_unmarked(text.drop_last());
        assert(marker_mode(text[text.len() - 1]) is None);
        assert(text.drop_last().push(text.last()) =~= text);
    } else {
        assert(text =~= Seq::<char>::empty());
    }
}

/// The map is the layout the renderer draws: a strip set as one vertical block, with no
/// carriage return among the line ends that end it, renders as the root, the columns of exactly
/// the layout its map walks, and the root's end.
pub proof fn the_map_is_the_layout_the_renderer_draws(input: Seq<char>, flags: u32)
    requires
        single_vertical(trim_line_ends(input), flags),
        trim_line_ends(input).len() > 0,
        trim_newlines(input) == trim_line_ends(input),
    ensures
        document_html(input, flag_options(flags)) == root_open(flag_options(flags)) + columns_html(
            laid_out(trim_line_ends(input), map_config(flags)),
            mode_column_class(
                if flag_set(flags, CODE) {
                    Mode::Code
                } else {
                    Mode::Prose
                },
            ),
        ) + "</div>\n"@,
{
    let t = trim_line_ends(input);
    let options = flag_options(flags);
    lemma_line_ends_within(input);
    assert forall|k: int| 0 <= k < input.len() implies marker_mode(#[trigger] input[k]) is None by {
        if input[k] != '\n' && input[k] != '\r' {
            let x = choose|x: int| 0 <= x < t.len() && t[x] == input[k];
            assert(!is_reserved(t[x]));
        }
    }
    assert(input.len() > 0) by {
        if input.len() == 0 {
            assert(t =~= input);
        }
    }
    let mode = if flag_set(flags, CODE) {
        Mode::Code
    } else {
        Mode::Prose
    };
    if !flag_set(flags, CODE) {
        lemma_split_unmarked(input);
    }
    let segs = segments_of(input, options.whole_strip_code);
    assert(segs == seq![(mode, input)]);
    assert(ends_open(input, options)) by {
        assert(marker_mode(input[input.len() - 1]) is None);
    }
    assert(segs.drop_last() =~= Seq::<(Mode, Seq<char>)>::empty());
    let init = Rendered { html: root_open(options), emitted_any: false, in_stack: false };
    assert(render_segments(segs.drop_last(), true, options) == init);
    assert(segs.last() == (mode, input));
    assert(render_segments(segs, false, options) == segment_step(
        render_segments(segs.drop_last(), true, options),
        segs.last(),
        false,
        options,
    ));
    let st = segment_step(init, (mode, input), false, options);
    assert(trim_newlines(input) == t);
    if !flag_set(flags, CODE) {
        assert(mode_block(Mode::Prose, t) == crate::html::BlockKind::Vertical);
    }
    assert(st.html == root_open(options) + columns_html(laid_out(t, map_config(flags)), mode_column_class(mode)) + Seq::<char>::empty());
    assert(!st.in_stack && st.emitted_any);
    assert(document_html(input, options) =~= root_open(options) + columns_html(
        laid_out(t, map_config(flags)),
        mode_column_class(mode),
    ) + "</div>\n"@);
}

/// A strip with no mode markers is a single segment: it renders as the root, the one block its
/// text is set in (inside a horizontal stack when that block is horizontal), and the root's end.
pub proof fn an_unmarked_strip_renders_as_one_block(input: Seq<char>, options: RenderOptions)
    requires
        forall|k: int| 0 <= k < input.len() ==> marker_mode(#[trigger] input[k]) is None,
        trim_newlines(input).len() > 0,
        !options.whole_strip_code,
    ensures
        document_html(input, options) == root_open(options) + ({
            let t = trim_newlines(input);
            let b = mode_block(Mode::Prose, t);
            if b is Vertical {
                block_html(b, Mode::Prose, t, false, options.progression)
            } else {
                "<div class=\"vertext-hstack\">"@ + block_html(b, Mode::Prose, t, false, options.progression)
                    + "</div>"@
            }
        }) + "</div>\n"@,
{
    let t = trim_newlines(input);
    assert(input.len() > 0) by {
        if input.len() == 0 {
            assert(input =~= Seq::<char>::empty());
        }
    }
    lemma_split_unmarked(input);
    let segs = segments_of(input, false);
    assert(segs == seq![(Mode::Prose, input)]);
    assert(ends_open(input, options)) by {
        assert(marker_mode(input[input.len() - 1]) is None);
    }
    assert(segs.drop_last() =~= Seq::<(Mode, Seq<char>)>::empty());
    let init = Rendered { html: root_open(options), emitted_any: false, in_stack: false };
    assert(render_segments(segs.drop_last(), true, options) == init);
    assert(segs.last() == (Mode::Prose, input));
    assert(render_segments(segs, false, options) == segment_step(
        render_segments(segs.drop_last(), true, options),
        segs.last(),
        false,
        options,
    ));
    let st = segment_step(init, (Mode::Prose, input), false, options);
    let b = mode_block(Mode::Prose, t);
    assert(st.emitted_any);
    assert(st.in_stack == !(b is Vertical));
    let body = block_html(b, Mode::Prose, t, false, options.progression);
    if b is Vertical {
        assert(st.html == root_open(options) + body);
        assert(document_html(input, options) =~= root_open(options) + body + "</div>\n"@);
    } else {
        assert(st.html == root_open(options) + "<div class=\"vertext-hstack\">"@ + body);
        assert(document_html(input, options) =~= root_open(options) + ("<div class=\"vertext-hstack\">"@
            + body + "</div>"@) + "</div>\n"@);
    }
}

/// The rendered strip is the map's layout: for a strip set as one vertical block, with no
/// carriage return among the line ends that end it, the renderer draws one column `div` for each
/// column of the map `map` returns, holding one slot `span` for each slot of that column.
pub proof fn the_rendered_columns_and_spans_are_the_maps(
    input: Seq<char>,
    flags: u32,
    mv: crate::geometry::SourceMapView,
)
    requires
        single_vertical(trim_line_ends(input), flags),
        trim_line_ends(input).len() > 0,
        trim_newlines(input) == trim_line_ends(input),
        own_walk(trim_line_ends(input), map_config(flags)) is Ok,
        map_is_walk(mv, trim_line_ends(input), own_walk(trim_line_ends(input), map_config(flags))->Ok_0),
        mv.slots.len() <= usize::MAX,
    ensures
        document_html(input, flag_options(flags)) == root_open(flag_options(flags)) + columns_html(
            laid_out(trim_line_ends(input), map_config(flags)),
            mode_column_class(
                if flag_set(flags, CODE) {
                    Mode::Code
                } else {
                    Mode::Prose
                },
            ),
        ) + "</div>\n"@,
        laid_out(trim_line_ends(input), map_config(flags)).len() == mv.columns.len(),
        forall|c: int|
            0 <= c < mv.columns.len() ==> laid_out(trim_line_ends(input), map_config(flags))[c].len()
                == #[trigger] spec_slot_count(mv, c),
{
    let t = trim_line_ends(input);
    let cfg = map_config(flags);
    let cols = laid_out(t, cfg);
    the_map_is_the_layout_the_renderer_draws(input, flags);
    lemma_walk_counts(t, cols);
    let w = own_walk(t, cfg)->Ok_0;
    assert(w.columns.len() == cols.len());
    assert forall|c: int| 0 <= c < mv.columns.len() implies cols[c].len() == #[trigger] spec_slot_count(
        mv,
        c,
    ) by {
        assert(mv.columns[c].2 == w.columns[c].2);
        if c + 1 < mv.columns.len() {
            assert(mv.columns[c + 1].2 == w.columns[c + 1].2);
        }
    }
}

} // verus!
