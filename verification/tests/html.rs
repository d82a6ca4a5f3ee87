use vertext::{
    heading_marker, render_document, Mode, Progression, RenderOptions, CELL_SEP,
    MAX_HEADING_LEVEL, MODE_CODE, MODE_LIST, MODE_LIST_ORDERED, MODE_PROSE, MODE_TABLE, ROW_SEP,
};

#[test]
fn mode_markers_are_the_wire_protocol() {
    // These codepoints are duplicated as literals in
    // extensions/vertext/vertext.lua. Do not change one side alone.
    assert_eq!(MODE_CODE, '\u{E000}');
    assert_eq!(MODE_PROSE, '\u{E001}');
    assert_eq!(heading_marker(1), '\u{E002}');
    assert_eq!(heading_marker(6), '\u{E007}');
    // Out-of-range levels clamp rather than producing a stray codepoint.
    assert_eq!(heading_marker(0), heading_marker(1));
    assert_eq!(heading_marker(9), heading_marker(6));
}

#[test]
fn every_marker_round_trips_to_its_mode() {
    assert_eq!(Mode::from_marker(MODE_CODE), Some(Mode::Code));
    assert_eq!(Mode::from_marker(MODE_PROSE), Some(Mode::Prose));
    assert_eq!(Mode::from_marker(MODE_TABLE), Some(Mode::Table));
    assert_eq!(Mode::from_marker(MODE_LIST), Some(Mode::ListItem { ordered: false }));
    assert_eq!(Mode::from_marker(MODE_LIST_ORDERED), Some(Mode::ListItem { ordered: true }));
    for level in 1..=MAX_HEADING_LEVEL {
        assert_eq!(Mode::from_marker(heading_marker(level)), Some(Mode::Heading(level)));
    }
    // Ordinary text must never be mistaken for a marker.
    // '\u{E00D}' is one past the last reserved codepoint and '\u{D7FF}'
    // sits below the whole block. Both must read as ordinary text.
    for ch in ['字', 'a', '\u{E00D}', '\u{D7FF}', '\u{E7FF}'] {
        assert_eq!(Mode::from_marker(ch), None, "{ch:?} should not be a marker");
    }
}

#[test]
fn a_heading_segment_gets_its_level_on_the_column() {
    // A CJK heading stays vertical and carries its level on the column.
    let input = format!("{}中文{MODE_PROSE}山川", heading_marker(2));
    let html = render_document(&input, RenderOptions::default());
    assert!(html.contains("vertext-column-heading vertext-column-h2"));
    assert!(html.contains("vertext-column-prose vertext-column-heading"));
    assert!(!html.contains(heading_marker(2)));
    // A Latin heading goes horizontal and carries its level there instead.
    let latin = format!("{}Chinese{MODE_PROSE}山川", heading_marker(2));
    let html = render_document(&latin, RenderOptions::default());
    assert!(html.contains("vertext-horizontal-heading vertext-horizontal-h2"));
}

#[test]
fn headings_do_not_leak_into_the_following_prose() {
    let input = format!("{}中文{MODE_PROSE}山川", heading_marker(2));
    let html = render_document(&input, RenderOptions::default());
    let heading_at = html.find("vertext-column-heading").unwrap();
    let prose_at = html.rfind("vertext-column-prose\"").unwrap();
    assert!(prose_at > heading_at, "the prose column must follow the heading column");
}

#[test]
fn empty_input_produces_a_well_formed_empty_strip() {
    let html = render_document("", RenderOptions::default());
    assert!(html.contains("<div class=\"vertext-column vertext-column-prose\"></div>"));
    assert!(html.starts_with("<div class=\"vertext\""));
}

#[test]
fn prose_and_code_segments_get_their_own_column_classes() {
    let input = format!("散文\n{MODE_CODE}let x = 1{MODE_PROSE}又散文");
    let html = render_document(&input, RenderOptions::default());
    // CJK prose stays vertical; the fenced code becomes a horizontal block.
    assert!(html.contains("vertext-column-prose"));
    assert!(html.contains("vertext-horizontal-code"));
    // The markers themselves must never reach the output.
    assert!(!html.contains(MODE_CODE));
    assert!(!html.contains(MODE_PROSE));
}

#[test]
fn leading_code_marker_does_not_create_an_empty_prose_segment() {
    let input = format!("{MODE_CODE}code{MODE_PROSE}");
    let html = render_document(&input, RenderOptions::default());
    assert!(!html.contains("vertext-column-prose\"><"));
    assert!(html.contains("vertext-horizontal-code"));
}

#[test]
fn whole_strip_code_sets_root_class_and_ignores_markers() {
    // `.vertext-code` is an explicit request for vertical code, so it
    // must NOT be turned horizontal by the orientation rule.
    let html = render_document("  let", RenderOptions { whole_strip_code: true, ..Default::default() });
    assert!(html.starts_with("<div class=\"vertext vertext-code\""));
    assert!(html.contains("vertext-space"), "indentation must survive");
    assert!(html.contains("vertext-column-code"), "must stay vertical");
    assert!(!html.contains("vertext-horizontal"));
}

#[test]
fn latin_caps_are_published_as_css_custom_properties() {
    let html = render_document("字", RenderOptions::default());
    assert!(html.contains("--vertext-latin-cap-prose:12ch"));
    assert!(html.contains("--vertext-latin-cap-code:24ch"));
}

#[test]
fn progression_reaches_the_dom_as_data() {
    let html = render_document("字", RenderOptions::default());
    assert!(html.contains("data-column-advance=\"left\""));
}

#[test]
fn a_table_keeps_its_cells_apart() {
    let input = format!(
        "{MODE_TABLE}蒙古文{CELL_SEP}转写{ROW_SEP}ᠰᠠᠶᠢᠨ{CELL_SEP}sayin"
    );
    let html = render_document(&input, RenderOptions::default());
    assert!(html.contains("<table class=\"vertext-table\">"));
    assert!(html.contains("<th class=\"vertext-cell\">"));
    assert!(html.contains("<td class=\"vertext-cell\">"));
    // The failure this exists to prevent: cells welding into one run.
    assert!(!html.contains("蒙古文转写"));
    assert!(!html.contains("ᠰᠠᠶᠢᠨsayin"));
    // The Mongolian cell keeps its joined run rather than per-glyph slots.
    assert!(html.contains("<span class=\"vertext-mongolian\">ᠰᠠᠶᠢᠨ</span>"));
    assert!(!html.contains(CELL_SEP));
    assert!(!html.contains(ROW_SEP));
}

#[test]
fn a_table_stacks_with_the_text_around_it() {
    // Caption above, table, commentary below — one stack, not three slots
    // side by side.
    let input = format!(
        "A vocabulary table follows.{MODE_TABLE}x{CELL_SEP}y{MODE_PROSE}\
         Read each column top to bottom."
    );
    let html = render_document(&input, RenderOptions::default());
    assert_eq!(html.matches("vertext-hstack").count(), 1);
    let stack = html.find("vertext-hstack").unwrap();
    let table = html.find("vertext-table").unwrap();
    let close = html.rfind("</div></div>").unwrap();
    assert!(stack < table && table < close, "the table must sit inside the stack");
}

#[test]
fn table_cells_never_hyphenate() {
    // A romanization broken across a hard hyphen is unusable as a
    // citation form; the column width is the constraint instead.
    let input = format!("{MODE_TABLE}x{CELL_SEP}bayarlal_a_bayartai_teyimu");
    let html = render_document(&input, RenderOptions::default());
    assert!(html.contains("bayarlal_a_bayartai_teyimu"));
    assert!(!html.contains('‐'));
}

#[test]
fn latin_prose_is_set_horizontally_and_cjk_is_not() {
    let english = render_document(
        "It is a truth universally acknowledged, that a single man",
        RenderOptions::default(),
    );
    assert!(english.contains("vertext-horizontal-prose"));
    assert!(english.contains("--vertext-wrap:66ch"));
    assert!(!english.contains("vertext-column-prose\">"));

    let chinese = render_document("山川异域，风月同天。", RenderOptions::default());
    assert!(chinese.contains("vertext-column-prose"));
    assert!(!chinese.contains("vertext-horizontal"));
}

#[test]
fn fenced_code_is_horizontal_at_the_code_measure() {
    let input = format!("{MODE_CODE}fn main() {{}}{MODE_PROSE}");
    let html = render_document(&input, RenderOptions::default());
    assert!(html.contains("vertext-horizontal-code"));
    assert!(html.contains("--vertext-wrap:80ch"));
    assert!(html.contains("<pre>"));
    // Source must still be escaped inside the pre.
    let injected = format!("{MODE_CODE}<script>{MODE_PROSE}");
    assert!(!render_document(&injected, RenderOptions::default()).contains("<script>"));
}

#[test]
fn mongolian_progression_reaches_the_dom_and_the_layout() {
    let options = RenderOptions {
        progression: Progression::LeftToRight,
        ..Default::default()
    };
    let html = render_document("ᠮᠣᠩᠭᠤᠯ\nᠤᠯᠤᠰ", options);
    // `right` means columns advance rightward: vertical-lr, the Mongolian
    // direction. Getting this backwards does not look wrong, it reads the
    // document in reverse order.
    assert!(html.contains("data-column-advance=\"right\""));
    assert!(!html.contains("data-column-advance=\"left\""));
    // And the default stays CJK for every document that does not declare.
    let cjk = render_document("山川", RenderOptions::default());
    assert!(cjk.contains("data-column-advance=\"left\""));
}

/// The renderer must never substitute a character. Presentation forms
/// like U+FE35 look right and destroy the document: copy-paste, find,
/// and screen readers all yield codepoints the author never typed. The
/// view rotates; the text is untouched.
#[test]
fn punctuation_is_never_substituted() {
    let source = "好（天）：川、月。—…「引」";
    let html = render_document(source, RenderOptions::default());
    for original in ['（', '）', '：', '、', '。', '—', '…', '「', '」'] {
        assert!(html.contains(original), "{original} must survive verbatim");
    }
    // Nothing from the vertical presentation blocks may appear.
    for ch in html.chars() {
        let c = ch as u32;
        assert!(!(0xFE10..=0xFE19).contains(&c), "presentation form {ch:?} leaked in");
        assert!(!(0xFE30..=0xFE4F).contains(&c), "presentation form {ch:?} leaked in");
    }
}

#[test]
fn page_mode_marks_the_root() {
    let html = render_document("字", RenderOptions { page: true, ..Default::default() });
    assert!(html.starts_with("<div class=\"vertext vertext-page\""));
}

#[test]
fn user_text_is_escaped() {
    let html = render_document("<script>", RenderOptions::default());
    assert!(!html.contains("<script>"));
    assert!(html.contains("&lt;"));
}

#[test]
fn trailing_newline_before_mode_toggle_keeps_a_blank_column() {
    let input = format!("散文\n{MODE_CODE}code{MODE_PROSE}");
    let html = render_document(&input, RenderOptions::default());
    assert!(html.contains("<div class=\"vertext-column vertext-column-prose\"></div>"));
}
