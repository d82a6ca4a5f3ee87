use std::ops::Range;
use unicode_segmentation::UnicodeSegmentation;
use vertext::{
    layout_text, slot_text, source_map, Caret, Layout, LayoutConfig, Slot, SourceMap,
    SourceMapError, INSERTED_HYPHEN,
};


/// Shapes the layout treats specially, each of which could put a slot's
/// bytes somewhere other than where the walk expects them.
const CASES: &[&str] = &[
    "",
    "\n",
    "山川异域，风月同天。寄诸佛子，共结来缘。",
    "第一行\r\n\r\n第三行\n",
    "ᠮᠣᠩᠭᠣᠯ\u{202F}ᠤᠨ ᠨᠣᠮ᠃",
    "ᠢᠢ\u{202F}is written",
    "ᠢᠢ\u{202F}",
    "ᠨᠡᠷ\u{180E}ᠡ ᠪᠠᠶᠢᠨ\u{180E}ᠠ ᠤᠤ?",
    "ᠠ\u{180B}ᠳ",
    "ᠰᠠᠶᠢᠨ(sayin) good",
    "sayin(ᠰᠠᠶᠢᠨ) good",
    "kedU(n) gerel.net min-U yabun_a uu/UU",
    "= ᠬ",
    "词尾(n)形式",
    "internationalization is a long word",
    "use-after-free",
    "e\u{0301}cole स\u{094D}त 葛\u{FE00}城",
    "👩\u{200D}💻 codes",
    "(mongɣol-un) čaγan Монгол хэл",
    "  indented\ttab",
];

fn maps(text: &str) -> (Layout, SourceMap) {
    let config = LayoutConfig::default();
    let layout = layout_text(text, &config);
    let map = source_map(text, &layout).unwrap_or_else(|e| panic!("{text:?}: {}", e.message()));
    (layout, map)
}

#[test]
fn every_slot_maps_to_the_bytes_it_shows() {
    for text in CASES {
        let (layout, map) = maps(text);
        let laid: Vec<&Slot> = layout.columns.iter().flat_map(|c| c.slots.iter()).collect();
        assert_eq!(map.slots().len(), laid.len(), "{text:?}");
        let mut covered = 0;
        for (source, slot) in map.slots().iter().zip(laid) {
            let shown = slot_text(slot);
            let expected = if source.inserted_hyphen {
                shown.strip_suffix(INSERTED_HYPHEN).unwrap()
            } else {
                shown
            };
            assert_eq!(&text[source.range.clone()], expected, "{text:?} {source:?}");
            assert_eq!(map.slot(source.column, source.index), Some(source));
            assert!(source.range.start >= covered, "{text:?}: slots out of order");
            covered += source.range.len();
        }
        // Everything not in a slot is a line break, one per column boundary.
        let breaks: usize = text.graphemes(true)
            .filter(|g| matches!(*g, "\n" | "\r" | "\r\n")).map(str::len).sum();
        assert_eq!(covered + breaks, text.len(), "{text:?}");
        assert_eq!(layout.columns.len(), text.graphemes(true)
            .filter(|g| matches!(*g, "\n" | "\r" | "\r\n")).count() + 1, "{text:?}");
    }
}

#[test]
fn every_grapheme_boundary_round_trips_through_a_caret() {
    for text in CASES {
        let (_, map) = maps(text);
        let mut offsets: Vec<usize> = text.grapheme_indices(true).map(|(o, _)| o).collect();
        offsets.push(text.len());
        let breaks: Vec<Range<usize>> = text.grapheme_indices(true)
            .filter(|(_, g)| matches!(*g, "\n" | "\r" | "\r\n"))
            .map(|(o, g)| o..o + g.len())
            .collect();
        let mut seen = std::collections::HashSet::new();
        for offset in offsets {
            let caret = map.caret(offset)
                .unwrap_or_else(|| panic!("{text:?}: no caret at byte {offset}"));
            assert_eq!(map.offset(caret), Some(offset), "{text:?} {caret:?}");
            assert!(seen.insert(caret), "{text:?}: two offsets share {caret:?}");
        }
        // And a byte inside a line break, or inside a grapheme, has none.
        for br in breaks.iter().filter(|b| b.len() > 1) {
            assert_eq!(map.caret(br.start + 1), None, "{text:?}");
        }
    }
}

#[test]
fn a_caret_can_stand_inside_a_mongolian_run() {
    // One slot, because the font must receive the word whole -- and nine
    // places a cursor can go, because a writer edits letters, not slots.
    let text = "ᠮᠣᠩᠭᠣᠯ\u{202F}ᠤᠨ";
    let (layout, map) = maps(text);
    assert_eq!(layout.columns[0].slots.len(), 1);
    let run = map.slot(0, 0).unwrap();
    assert_eq!(run.graphemes(), 9);
    let joint = text.find('\u{202F}').unwrap();
    assert_eq!(map.caret(joint), Some(Caret { column: 0, index: 0, grapheme: 6 }));
    assert_eq!(map.offset(Caret { column: 0, index: 0, grapheme: 7 }), Some(joint + 3));
    assert_eq!(map.slot_at(joint), Some(run));
}

#[test]
fn an_inserted_hyphen_has_no_source_bytes() {
    let text = "internationalization";
    let (layout, map) = maps(text);
    assert!(layout.columns[0].slots.len() > 1);
    let first = map.slot(0, 0).unwrap();
    assert!(first.inserted_hyphen);
    assert_eq!(first.graphemes(), text[first.range.clone()].chars().count());
    // The position after the visible hyphen is the start of the next piece.
    assert_eq!(map.caret(first.range.end), Some(Caret { column: 0, index: 1, grapheme: 0 }));
    // A hyphen the author typed is source, and is not flagged.
    let (_, typed) = maps("use-after-free-and-then-some");
    assert!(typed.slots().iter().all(|s| !s.inserted_hyphen));
}

#[test]
fn a_blank_line_is_a_column_with_one_caret() {
    let text = "上\n\n下";
    let (layout, map) = maps(text);
    assert_eq!(layout.columns[1].slots.len(), 0);
    assert_eq!(map.caret(text.find("\n\n").unwrap() + 1),
               Some(Caret { column: 1, index: 0, grapheme: 0 }));
    assert_eq!(map.offset(Caret { column: 1, index: 0, grapheme: 1 }), None);
}

#[test]
fn a_layout_of_another_text_is_refused() {
    let layout = layout_text("山川异域", &LayoutConfig::default());
    let error = source_map("山川異域", &layout).unwrap_err();
    assert_eq!(error, SourceMapError { column: 0, index: Some(2), offset: 6 });
    assert!(source_map("山川异域\n", &layout).is_err());
}
