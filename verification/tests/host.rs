use vertext::host::{map_json, options, render, CODE, LEFT_TO_RIGHT, PAGE};
use vertext::{render_document, Progression, RenderOptions};

#[test]
fn the_map_is_the_layout_the_renderer_draws() {
    let text = "山川异域\nᠮᠣᠩᠭᠣᠯ\u{202F}ᠤᠨ ᠨᠣᠮ\n";
    let html = render(text, 0);
    let m = vertext::host::map(text, 0).unwrap();
    // One column div per mapped column, one span per mapped slot.
    let columns = html.matches("<div class=\"vertext-column").count();
    let spans = html.matches("<span class=\"vertext-").count();
    let mapped = map_json(&m);
    assert_eq!(columns, mapped.matches('[').count() - 1, "{mapped}");
    assert_eq!(spans, m.slots().len());
    assert_eq!(mapped.matches("\"start\"").count(), spans);
}

#[test]
fn input_with_no_single_vertical_layout_has_no_map() {
    assert!(vertext::host::map("\u{E002}標題\u{E001}正文", 0).is_none());
    assert!(vertext::host::map("this paragraph is plainly English and goes horizontal", 0).is_none());
}

#[test]
fn flags_select_the_options_the_command_line_would() {
    let all = options(CODE | PAGE | LEFT_TO_RIGHT);
    assert!(all.whole_strip_code && all.page);
    assert_eq!(all.progression, Progression::LeftToRight);
    let none = options(0);
    assert!(!none.whole_strip_code && !none.page);
    assert_eq!(none.progression, Progression::RightToLeft);
    let text = "山川异域，风月同天。\nᠮᠣᠩᠭᠣᠯ\u{202F}ᠤᠨ";
    assert_eq!(
        render(text, PAGE | LEFT_TO_RIGHT),
        render_document(
            text,
            RenderOptions { whole_strip_code: false, page: true, progression: Progression::LeftToRight },
        )
    );
}

#[test]
fn the_map_json_lists_each_slot_of_each_column() {
    let m = vertext::host::map("山\n\nᠮᠣᠩᠭᠣᠯ\u{202F}ᠤᠨ\n", 0).unwrap();
    assert_eq!(
        map_json(&m),
        "{\"columns\":[[{\"start\":0,\"end\":3,\"graphemes\":1,\"hyphen\":false}],[],\
         [{\"start\":5,\"end\":32,\"graphemes\":9,\"hyphen\":false}]]}"
    );
    let long = vertext::host::map("山 internationalization", 0).unwrap();
    assert_eq!(
        map_json(&long),
        "{\"columns\":[[{\"start\":0,\"end\":3,\"graphemes\":1,\"hyphen\":false},\
         {\"start\":3,\"end\":4,\"graphemes\":1,\"hyphen\":false},\
         {\"start\":4,\"end\":15,\"graphemes\":11,\"hyphen\":true},\
         {\"start\":15,\"end\":24,\"graphemes\":9,\"hyphen\":false}]]}"
    );
}

#[test]
fn code_flag_maps_text_that_prose_would_set_horizontally() {
    let english = "this paragraph is plainly English and goes horizontal";
    assert!(vertext::host::map(english, 0).is_none());
    assert!(vertext::host::map(english, CODE).is_some());
    // Trailing line ends are not part of the mapped strip.
    let m = vertext::host::map("山川\r\n", 0).unwrap();
    assert_eq!(m.columns(), 1);
}

#[test]
fn a_vertical_strip_renders_as_the_columns_its_map_walks() {
    let text = "山\n川\n";
    assert_eq!(
        render(text, 0),
        "<div class=\"vertext\" data-column-advance=\"left\" \
         style=\"--vertext-latin-cap-prose:12ch;--vertext-latin-cap-code:24ch\">\
         <div class=\"vertext-column vertext-column-prose\"><span class=\"vertext-upright\">山</span></div>\
         <div class=\"vertext-column vertext-column-prose\"><span class=\"vertext-upright\">川</span></div>\
         </div>\n"
    );
    let m = vertext::host::map(text, 0).unwrap();
    assert_eq!(m.columns(), 2);
    assert_eq!(m.slots().len(), 2);
}
