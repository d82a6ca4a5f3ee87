use vertext::text::is_white_space;
use vertext::{
    escape, heading_marker, layout_text, render_document, layout_with_source_map, source_map,
    Caret, LayoutConfig, Mode, RenderOptions, Slot, SourceMapError, CELL_SEP, MODE_CODE,
    MODE_TABLE, ROW_SEP,
};

#[test]
fn white_space_is_the_unicode_property_std_reports() {
    for code in 0..=0x10FFFFu32 {
        if let Some(c) = char::from_u32(code) {
            assert_eq!(is_white_space(c), c.is_whitespace(), "{code:#x}");
        }
    }
}

#[test]
fn escape_writes_each_markup_character_as_a_reference() {
    assert_eq!(escape("<a href=\"x\">&b</a>"), "&lt;a href=&quot;x&quot;&gt;&amp;b&lt;/a&gt;");
    assert_eq!(escape("山川"), "山川");
    assert_eq!(escape(""), "");
}

#[test]
fn a_one_character_strip_renders_exactly() {
    assert_eq!(
        render_document("字", RenderOptions::default()),
        "<div class=\"vertext\" data-column-advance=\"left\" \
         style=\"--vertext-latin-cap-prose:12ch;--vertext-latin-cap-code:24ch\">\
         <div class=\"vertext-column vertext-column-prose\">\
         <span class=\"vertext-upright\">字</span></div></div>\n"
    );
}

#[test]
fn a_table_renders_exactly() {
    let input = format!("{MODE_TABLE}a{CELL_SEP}山{ROW_SEP}{ROW_SEP}b");
    let html = render_document(&input, RenderOptions::default());
    assert!(html.contains(
        "<div class=\"vertext-hstack\"><table class=\"vertext-table\">\
         <thead><tr class=\"vertext-row vertext-row-header\">\
         <th class=\"vertext-cell\"><div class=\"vertext-column vertext-column-cell\">\
         <span class=\"vertext-latin\">a</span></div></th>\
         <th class=\"vertext-cell\"><div class=\"vertext-column vertext-column-cell\">\
         <span class=\"vertext-upright\">山</span></div></th></tr></thead><tbody>\
         <tr class=\"vertext-row\"><td class=\"vertext-cell\">\
         <div class=\"vertext-column vertext-column-cell\">\
         <span class=\"vertext-latin\">b</span></div></td></tr></tbody></table></div>"
    ));
}

#[test]
fn the_newline_that_ends_the_input_adds_no_blank_column() {
    let blank = "<div class=\"vertext-column vertext-column-prose\"></div>";
    assert!(!render_document("散文\n", RenderOptions::default()).contains(blank));
    assert!(render_document(&format!("散文\n{MODE_CODE}"), RenderOptions::default()).contains(blank));
}

#[test]
fn a_heading_marker_opens_a_heading_of_its_level() {
    for level in 0..=9u8 {
        let clamped = level.clamp(1, 6);
        assert_eq!(heading_marker(level) as u32, 0xE002 + u32::from(clamped) - 1);
        assert_eq!(Mode::from_marker(heading_marker(level)), Some(Mode::Heading(clamped)));
    }
}

#[test]
fn connectors_held_before_a_closing_bracket_stay_in_place() {
    // The closing bracket completes `a(b`, and the `-` held back before it joins the word too.
    let text = "a(b-)";
    let layout = layout_text(text, &LayoutConfig::default());
    assert_eq!(layout.columns[0].slots, vec![Slot::LatinWord("a(b-)".into())]);
    let (_, map) = layout_with_source_map(text, &LayoutConfig::default());
    assert_eq!(map.slots().len(), 1);
    assert_eq!(map.slots()[0].range, 0..5);
}

#[test]
fn a_hyphen_carrying_a_mark_is_no_break() {
    // A hyphen with a combining acute accent is one cluster, and not a bare hyphen: the word is
    // broken by count, with an inserted hyphen, and the map still lines up with the text.
    let text = "abcd-\u{301}efgh";
    let config = LayoutConfig { max_latin_word_width: 5, ..LayoutConfig::default() };
    let layout = layout_text(text, &config);
    assert_eq!(layout.columns[0].slots, vec![
        Slot::LatinWord("abcd\u{2010}".into()),
        Slot::LatinWord("-\u{301}efgh".into()),
    ]);
    let (_, map) = layout_with_source_map(text, &config);
    assert_eq!(map.slots().len(), 2);
    assert!(map.slots()[0].inserted_hyphen);
    assert_eq!(map.slots()[0].range, 0..4);
    assert_eq!(map.slots()[1].range, 4..text.len());
}

#[test]
fn the_end_of_a_slot_is_a_caret_only_at_the_end_of_its_column() {
    let (_, map) = layout_with_source_map("山川", &LayoutConfig::default());
    assert_eq!(map.offset(Caret { column: 0, index: 0, grapheme: 1 }), None);
    assert_eq!(map.offset(Caret { column: 0, index: 1, grapheme: 0 }), Some(3));
    assert_eq!(map.offset(Caret { column: 0, index: 1, grapheme: 1 }), Some(6));
}

#[test]
fn each_refusal_names_where_the_walk_stopped() {
    let layout = layout_text("山川", &LayoutConfig::default());
    let slot = source_map("山水", &layout).unwrap_err();
    assert_eq!(slot, SourceMapError { column: 0, index: Some(1), offset: 3 });
    assert_eq!(slot.message(), "slot 1 of column 0 does not match the text at byte 3");
    let end = source_map("山川\n", &layout).unwrap_err();
    assert_eq!(end, SourceMapError { column: 0, index: None, offset: 6 });
    assert_eq!(end.message(), "column 0 does not end where the text breaks a line (byte 6)");
    let two = layout_text("山\n川", &LayoutConfig::default());
    let missing_break = source_map("山川", &two).unwrap_err();
    assert_eq!(missing_break, SourceMapError { column: 0, index: None, offset: 3 });
}

#[test]
fn a_caret_and_its_offset_lead_back_to_each_other() {
    let text = "山川\r\nᠮᠣᠩᠭᠣᠯ";
    let (_, map) = layout_with_source_map(text, &LayoutConfig::default());
    assert_eq!(map.columns(), 2);
    for offset in 0..=text.len() {
        if let Some(caret) = map.caret(offset) {
            assert_eq!(map.offset(caret), Some(offset));
        }
    }
    // Inside the CR LF break there is no caret.
    assert_eq!(map.caret(7), None);
    assert_eq!(map.caret(8), Some(Caret { column: 1, index: 0, grapheme: 0 }));
    assert_eq!(map.caret(6), Some(Caret { column: 0, index: 1, grapheme: 1 }));
}

#[test]
fn every_text_maps_onto_itself() {
    for text in [
        "",
        "\r\n\r\n",
        "\r\r\n\n",
        "山川异域，风月同天。\nᠮᠣᠩᠭᠣᠯ\u{202F}ᠤᠨ ᠨᠣᠮ",
        "internationalization supercalifragilistic-expialidocious",
        "kedU(n) -n_a / min-U",
        "well\u{2010}known",
        "a(b-)",
        "x-(y-)z",
    ] {
        let (layout, map) = layout_with_source_map(text, &LayoutConfig::default());
        assert_eq!(source_map(text, &layout), Ok(map), "{text:?}");
    }
}

#[test]
fn each_bichig_run_in_horizontal_prose_gets_a_joining_face() {
    let mut html = String::new();
    vertext::html::render_horizontal(
        &mut html,
        "say ᠮᠣᠩᠭᠣᠯ\u{202F}ᠤᠨ & ᠡᠨᠡ.",
        vertext::HorizontalKind::Prose,
        Mode::Prose,
    );
    assert!(html.contains(
        "<div>say <span class=\"vertext-mongolian-inline\">ᠮᠣᠩᠭᠣᠯ\u{202F}ᠤᠨ</span> &amp; \
         <span class=\"vertext-mongolian-inline\">ᠡᠨᠡ</span>.</div>"
    ));
}

#[test]
fn a_separator_nothing_joins_stands_outside_the_run() {
    let mut html = String::new();
    vertext::html::render_horizontal(
        &mut html,
        "ᠢ\u{202F}\u{202F}ᠢ",
        vertext::HorizontalKind::Prose,
        Mode::Prose,
    );
    assert!(html.contains(
        "<div><span class=\"vertext-mongolian-inline\">ᠢ</span>\u{202F}\u{202F}\
         <span class=\"vertext-mongolian-inline\">ᠢ</span></div>"
    ));
}

#[test]
fn horizontal_code_keeps_bichig_unmarked() {
    let mut html = String::new();
    vertext::html::render_horizontal(&mut html, "x = \"ᠡᠨᠡ\"", vertext::HorizontalKind::Code, Mode::Code);
    assert!(html.contains("<pre>x = &quot;ᠡᠨᠡ&quot;</pre>"));
    assert!(!html.contains("vertext-mongolian-inline"));
}

#[test]
fn a_doubled_joint_ends_the_run_in_the_measure_as_in_the_layout() {
    let text = "ᠢ\u{202F}\u{202F}ᠢ";
    assert_eq!(vertext::measure_slots(text), (2, 0));
    let layout = layout_text(text, &LayoutConfig::default());
    let runs = layout.columns[0]
        .slots
        .iter()
        .filter(|slot| matches!(slot, Slot::MongolianRun(_)))
        .count();
    assert_eq!(runs, 2);
    assert_eq!(vertext::measure_slots("ᠢ\u{202F}ᠢ"), (1, 0));
}

#[test]
fn text_already_cut_into_clusters_lays_out_as_text_does() {
    let clusters: Vec<String> = ["山", "\n", "ab", "c", " ", "ᠢ"].iter().map(|c| c.to_string()).collect();
    let layout = vertext::layout_clusters(&clusters, &LayoutConfig::default());
    assert_eq!(layout.columns.len(), 2);
    assert_eq!(layout.columns[0].slots, vec![Slot::Upright("山".into())]);
    assert_eq!(layout.columns[1].slots, vec![
        Slot::LatinWord("abc".into()),
        Slot::Space(" ".into()),
        Slot::MongolianRun("ᠢ".into()),
    ]);
    assert_eq!(vertext::measure_clusters(&clusters), (2, 1));
}

#[test]
fn the_map_has_the_columns_and_slots_the_renderer_draws() {
    let text = "山川\n风月同天";
    let map = vertext::host::map(text, 0).unwrap();
    assert_eq!(map.columns(), 2);
    assert_eq!(map.slots().len(), 6);
    let html = vertext::host::render(text, 0);
    assert_eq!(html.matches("<div class=\"vertext-column").count(), map.columns());
    assert_eq!(html.matches("<span class=\"vertext-upright\">").count(), map.slots().len());
}

#[test]
fn only_a_bare_hyphen_is_a_break_opportunity() {
    assert_eq!(
        vertext::split_latin_word("-\u{301}bb", 2),
        vec!["-\u{301}\u{2010}".to_string(), "bb".to_string()]
    );
    assert_eq!(vertext::split_latin_word("a-bcd", 3), vec!["a-".to_string(), "bcd".to_string()]);
}

#[test]
fn each_slot_is_found_at_its_place_and_holds_its_bytes() {
    let text = "ᠮᠣᠩᠭᠣᠯ\u{202F}ᠤᠨ 山\nab";
    let (_, map) = layout_with_source_map(text, &LayoutConfig::default());
    for s in map.slots() {
        assert_eq!(map.slot(s.column, s.index), Some(s));
        for offset in s.range.clone() {
            assert_eq!(map.slot_at(offset), Some(s));
        }
    }
    assert_eq!(map.slot(0, map.slots().iter().filter(|s| s.column == 0).count()), None);
    // Byte 18 is the U+202F joint, inside the single run.
    assert_eq!(map.slot_at(18).map(|s| s.range.clone()), Some(0..27));
}

#[test]
fn every_caret_offset_accepts_leads_back_to_itself() {
    let text = "山川\r\nᠮᠣᠩᠭᠣᠯ ab";
    let (_, map) = layout_with_source_map(text, &LayoutConfig::default());
    for column in 0..3 {
        for index in 0..4 {
            for grapheme in 0..8 {
                let caret = Caret { column, index, grapheme };
                if let Some(offset) = map.offset(caret) {
                    assert_eq!(map.caret(offset), Some(caret));
                }
            }
        }
    }
}

#[test]
fn a_table_cell_shows_no_hyphen_its_text_lacks() {
    let input = format!("{MODE_TABLE}x{CELL_SEP}bayarlal_a_bayartai_teyimu_internationalization");
    let html = render_document(&input, RenderOptions::default());
    assert!(!html.contains('\u{2010}'));
}
