use unicode_segmentation::UnicodeSegmentation;
use vertext::{
    layout_text, measure_slots, prefers_horizontal, split_latin_word, HorizontalKind, LayoutConfig,
    Progression, Slot,
};

#[test]
fn a_newline_creates_the_column_to_the_left() {
    let layout = layout_text("中文\n日本", &LayoutConfig::default());
    assert_eq!(layout.columns.len(), 2);
    assert_eq!(layout.columns[0].slots, vec![Slot::Upright("中".into()), Slot::Upright("文".into())]);
}
#[test]
fn long_latin_words_are_bounded() {
    let layout = layout_text("textremificationalization", &LayoutConfig::default());
    assert!(layout.columns[0].slots.iter().all(|slot| match slot { Slot::LatinWord(s) => s.chars().count() <= 12, _ => true }));
}
#[test]
fn punctuation_with_a_vertical_form_gets_its_own_slot() {
    let layout = layout_text("()", &LayoutConfig::default());
    assert_eq!(layout.columns[0].slots, vec![
        Slot::VerticalPunctuation("(".into()),
        Slot::VerticalPunctuation(")".into()),
    ]);
}
/// Stops and commas move to the corner of their em square; dashes and
/// ellipses turn. Two different treatments, and neither is a rotation of
/// the whole line or a change to the characters.
/// Semicolons keep company with commas and stops; arrows turn because a
/// horizontal arrow must keep pointing "onward" when onward is downward;
/// a vertical arrow already does and is left alone.
/// The punctuation contract, pinned character by character.
///
/// This table is the agreement, not a sample of it. Every mark below was
/// decided deliberately and this classification has already churned more
/// than once — so it is written out in full and any change to it fails
/// here, loudly, instead of quietly altering how someone's document is
/// set. If a mark genuinely needs to move, move it *here first*.
#[test]
fn the_punctuation_contract() {
    // Turns a quarter-circle. Brackets, quotes, colons, dashes, ellipses,
    // and the ASCII operators that stand between clauses.
    for mark in ['(', ')', '[', ']', '{', '}', '<', '>', ':', '"', '\'',
                 '=', '|',
                 '（', '）', '［', '］', '｛', '｝', '〈', '〉', '《', '》',
                 '「', '」', '『', '』', '【', '】', '〔', '〕',
                 '“', '”', '‘', '’', '：',
                 '—', '―', '－', '…', '‥', '〜', '～', '｜', '‖',
                 // The rest of the dash family. The em dash was here from
                 // the start and its siblings were not, so `᠑–᠕` came out
                 // with the dash lying flat across the column while an em
                 // dash two lines above it turned correctly.
                 '–', '‐', '‑', '‒', '−', '⸺', '⸻',
                 '→', '←', '↔', '⇒', '⇐', '⇔', '⟶', '⟵'] {
        let layout = layout_text(&format!("好{mark}好"), &LayoutConfig::default());
        assert_eq!(layout.columns[0].slots[1],
            Slot::VerticalPunctuation(mark.to_string()),
            "{mark:?} must turn");
    }
    // Sits in the corner of its em square. Clause separators travel as a
    // family; splitting one off makes a sentence look mis-set.
    for mark in ['，', '、', '。', '．', '｡', '､', '；', ';'] {
        let layout = layout_text(&format!("好{mark}好"), &LayoutConfig::default());
        assert_eq!(layout.columns[0].slots[1],
            Slot::CornerPunctuation(mark.to_string()),
            "{mark:?} must go to the corner");
    }
    // Stays upright. A turned slash reads as a backslash; `↑`/`↓` already
    // point along the flow; `！`/`？` are upright by convention.
    for mark in ['/', '\\', '↑', '↓', '↕', '！', '？', '!', '?', '+', '*', '%'] {
        let layout = layout_text(&format!("好{mark}好"), &LayoutConfig::default());
        assert_eq!(layout.columns[0].slots[1],
            Slot::Neutral(mark.to_string()),
            "{mark:?} must stay upright");
    }
}

#[test]
fn separators_and_arrows_are_classified_by_behaviour() {
    let layout = layout_text("好；天→月↓日/水", &LayoutConfig::default());
    assert_eq!(layout.columns[0].slots, vec![
        Slot::Upright("好".into()),
        Slot::CornerPunctuation("；".into()),
        Slot::Upright("天".into()),
        Slot::VerticalPunctuation("→".into()),
        Slot::Upright("月".into()),
        Slot::Neutral("↓".into()),
        Slot::Upright("日".into()),
        Slot::Neutral("/".into()),
        Slot::Upright("水".into()),
    ]);
}
#[test]
fn stops_go_to_the_corner_and_dashes_turn() {
    let layout = layout_text("好，天。—…", &LayoutConfig::default());
    assert_eq!(layout.columns[0].slots, vec![
        Slot::Upright("好".into()),
        Slot::CornerPunctuation("，".into()),
        Slot::Upright("天".into()),
        Slot::CornerPunctuation("。".into()),
        Slot::VerticalPunctuation("—".into()),
        Slot::VerticalPunctuation("…".into()),
    ]);
}
#[test]
fn underscores_and_digits_stay_in_a_latin_identifier() {
    let layout = layout_text("hi_nancy v2", &LayoutConfig::default());
    assert_eq!(layout.columns[0].slots, vec![
        Slot::LatinWord("hi_nancy".into()),
        Slot::Space(" ".into()),
        Slot::LatinWord("v2".into()),
    ]);
}
/// Golden: the README's own sample. Every scalar accounted for, in order.
#[test]
fn golden_shanchuan_yiyu() {
    let layout = layout_text("山川异域，风月同天。", &LayoutConfig::default());
    assert_eq!(layout.progression, Progression::RightToLeft);
    assert_eq!(layout.columns.len(), 1);
    let expected: Vec<Slot> = "山川异域"
        .chars()
        .map(|c| Slot::Upright(c.to_string()))
        .chain([Slot::CornerPunctuation("，".into())])
        .chain("风月同天".chars().map(|c| Slot::Upright(c.to_string())))
        .chain([Slot::CornerPunctuation("。".into())])
        .collect();
    assert_eq!(layout.columns[0].slots, expected);
}
/// A variation selector selects which glyph the font draws for an
/// ideograph. Split into its own slot it selects nothing and the reader
/// gets the wrong form of a character in someone's name.
#[test]
fn a_variation_selector_stays_with_its_ideograph() {
    let layout = layout_text("葛\u{FE00}城", &LayoutConfig::default());
    assert_eq!(layout.columns[0].slots, vec![
        Slot::Upright("葛\u{FE00}".into()),
        Slot::Upright("城".into()),
    ]);
}
#[test]
fn combining_marks_stay_with_their_base() {
    // Devanagari स + virama + त is one cluster; e + combining acute is one
    // Latin grapheme inside a word.
    let layout = layout_text("स\u{094D}त e\u{0301}cole", &LayoutConfig::default());
    assert_eq!(layout.columns[0].slots, vec![
        Slot::Neutral("स\u{094D}त".into()),
        Slot::Space(" ".into()),
        Slot::LatinWord("e\u{0301}cole".into()),
    ]);
}
#[test]
fn zwj_and_flag_sequences_are_one_slot_each() {
    let layout = layout_text("🇯🇵👨\u{200D}👩\u{200D}👧", &LayoutConfig::default());
    assert_eq!(layout.columns[0].slots, vec![
        Slot::Neutral("🇯🇵".into()),
        Slot::Neutral("👨\u{200D}👩\u{200D}👧".into()),
    ]);
}
#[test]
fn a_hard_hyphen_never_splits_a_cluster() {
    // Twelve clusters, each a base plus a combining acute: the cap counts
    // clusters, so no piece may end mid-cluster.
    let word = "e\u{0301}".repeat(14);
    let layout = layout_text(&word, &LayoutConfig::default());
    for slot in &layout.columns[0].slots {
        let Slot::LatinWord(piece) = slot else { panic!("expected Latin slots") };
        assert!(!piece.starts_with('\u{0301}'), "piece begins with an orphaned mark: {piece:?}");
        assert!(piece.graphemes(true).count() <= 12);
    }
}
#[test]
fn a_crlf_newline_opens_one_column() {
    let layout = layout_text("中\r\n日", &LayoutConfig::default());
    assert_eq!(layout.columns.len(), 2);
    assert_eq!(layout.columns[1].slots, vec![Slot::Upright("日".into())]);
}
#[test]
fn orientation_is_decided_by_ink_not_character_count() {
    // Four ideographs outweigh three Latin words, because they carry more
    // of the line. A naive character count would call this horizontal.
    assert!(!prefers_horizontal("山川异域 the of and"));
    assert!(prefers_horizontal("It is a truth universally acknowledged"));
    assert!(!prefers_horizontal("春はあけぼの。やうやう白くなりゆく"));
    // A few Latin words inside CJK stay vertical.
    assert!(!prefers_horizontal("この API は便利です"));
    // Mongolian is a vertical script and must never be called horizontal.
    assert!(!prefers_horizontal("ᠮᠣᠩᠭᠤᠯ ᠤᠯᠤᠰ"));
    // Program source is Latin-majority.
    assert!(prefers_horizontal("fn main() { println!(\"hi\"); }"));
}
#[test]
fn punctuation_alone_does_not_decide_orientation() {
    // No letters at all: nothing votes, so it stays vertical by default.
    assert!(!prefers_horizontal("，。、；：！？"));
    assert!(!prefers_horizontal("...,,,;;;"));
}
#[test]
fn horizontal_kinds_carry_their_conventional_measures() {
    assert_eq!(HorizontalKind::Prose.default_wrap(), 66);
    assert_eq!(HorizontalKind::Code.default_wrap(), 80);
}
#[test]
fn a_mark_between_letters_is_part_of_the_word() {
    // `min-U`, `kedU(n)`, `gerel.net` are single citation forms. Splitting
    // them drops a rotated bracket into the middle of a word.
    let layout = layout_text("min-U kedU(n) gerel.net a=b:c", &LayoutConfig::default());
    let words: Vec<&Slot> = layout.columns[0].slots.iter()
        .filter(|slot| !matches!(slot, Slot::Space(_))).collect();
    assert_eq!(words, vec![
        &Slot::LatinWord("min-U".into()),
        &Slot::LatinWord("kedU(n)".into()),
        &Slot::LatinWord("gerel.net".into()),
        &Slot::LatinWord("a=b:c".into()),
    ]);
}
/// The other half of the contract above, and the boundary between them.
///
/// A connector joins letters only when letters hold it on BOTH sides.
/// Pressed against an ideograph it is an ordinary bracket in a Chinese
/// sentence and takes its vertical form, exactly as `is_word_connector`
/// has always said it should ("with a space or an ideograph on the left
/// ... ordinary punctuation").
///
/// This is the case a Chinese document teaching Mongolian is made of:
/// `不稳定词尾(n)` is a gloss inside prose, while `kedU(n)` in the glossary
/// beside it is one citation form. Same characters, different job, and the
/// character on the left is what tells them apart. Getting this wrong
/// leaves a sentence where some brackets turn and some lie flat.
#[test]
fn a_mark_against_an_ideograph_is_punctuation() {
    let layout = layout_text("词尾(n)形式", &LayoutConfig::default());
    assert_eq!(layout.columns[0].slots, vec![
        Slot::Upright("词".into()),
        Slot::Upright("尾".into()),
        Slot::VerticalPunctuation("(".into()),
        Slot::LatinWord("n".into()),
        Slot::VerticalPunctuation(")".into()),
        Slot::Upright("形".into()),
        Slot::Upright("式".into()),
    ]);
    // A closing bracket followed by an ideograph closes the aside; it must
    // not swallow the ideograph's side of the boundary either.
    let mongolian = layout_text("ᠱ(S) 不", &LayoutConfig::default());
    assert_eq!(mongolian.columns[0].slots, vec![
        Slot::MongolianRun("ᠱ".into()),
        Slot::VerticalPunctuation("(".into()),
        Slot::LatinWord("S".into()),
        Slot::VerticalPunctuation(")".into()),
        Slot::Space(" ".into()),
        Slot::Upright("不".into()),
    ]);
    // And the citation form is untouched: letters on both sides still join.
    let citation = layout_text("kedU(n)", &LayoutConfig::default());
    assert_eq!(citation.columns[0].slots, vec![Slot::LatinWord("kedU(n)".into())]);
}
/// A long word breaks at a hyphen it already has, rather than counting to
/// the cap and inserting one.
///
/// `use-after-free` came back as `use-after-f‐` / `ree`, which reads as a
/// different term. A hyphen is already a sanctioned break point, so
/// breaking there needs no inserted mark at all — and a break that adds
/// nothing leaves the text identical to the source.
#[test]
fn a_long_word_breaks_at_the_hyphen_it_already_has() {
    // 15 clusters against the default cap of 12.
    assert_eq!(split_latin_word("use-after-free", 12),
        vec!["use-after-".to_owned(), "free".to_owned()]);
    // Nothing was inserted: the pieces rebuild the source exactly.
    assert_eq!(split_latin_word("use-after-free", 12).concat(), "use-after-free");

    // The rightmost hyphen that still fits wins, so each piece is as full
    // as it can be. `-in-` would fit too, but leaves a longer remainder.
    assert_eq!(split_latin_word("copy-on-write-semantics", 14),
        vec!["copy-on-write-".to_owned(), "semantics".to_owned()]);

    // A remainder that still overflows keeps breaking, and the tail falls
    // back to counting when it holds no hyphen of its own.
    assert_eq!(split_latin_word("well-known-supercalifragilistic", 12),
        vec!["well-known-".to_owned(), "supercalifr‐".to_owned(), "agilistic".to_owned()]);

    // A hyphen too far right to help is no break opportunity: the prefix
    // before it still exceeds the cap, so counting takes over.
    assert_eq!(split_latin_word("supercalifragilistic-x", 12),
        vec!["supercalifr‐".to_owned(), "agilistic-x".to_owned()]);

    // A trailing hyphen must not produce an empty piece.
    assert_eq!(split_latin_word("autoconfiguration-", 12),
        vec!["autoconfigu‐".to_owned(), "ration-".to_owned()]);

    // Only hyphens are break opportunities. The other word connectors join
    // — splitting `gerel.net` at the dot, or `kedU(n)` at the paren, breaks
    // a citation form in half.
    assert_eq!(split_latin_word("gerel.net.example.org", 12),
        vec!["gerel.net.e‐".to_owned(), "xample.org".to_owned()]);

    // Short enough to leave alone, hyphen or not.
    assert_eq!(split_latin_word("use-after", 12), vec!["use-after".to_owned()]);
}

/// A hyphen break survives the full layout path, not just the splitter,
/// and leaves the source character-for-character intact.
#[test]
fn breaking_at_a_hyphen_alters_no_character() {
    let source = "在 use-after-free 中";
    let layout = layout_text(source, &LayoutConfig::default());
    let mut rebuilt = String::new();
    for column in &layout.columns {
        for slot in &column.slots {
            match slot {
                Slot::Upright(s) | Slot::LatinWord(s) | Slot::MongolianRun(s)
                | Slot::VerticalPunctuation(s) | Slot::CornerPunctuation(s)
                | Slot::Neutral(s) | Slot::Space(s) => rebuilt.push_str(s),
            }
        }
    }
    assert_eq!(rebuilt, source, "a hyphen break must insert nothing");
    assert!(!rebuilt.contains('\u{2010}'), "no break mark was needed here");
}

/// A mark with letters on the right joins them too: `-n_a` is one word.
/// The invariant that matters most: layout never edits the text. Every
/// slot concatenated back together, in order, must equal the source with
/// only whitespace removed. A renderer that rewrites content is not
/// rendering it.
#[test]
fn layout_never_alters_a_single_character() {
    // Includes marks pressed directly against Mongolian, Han, and Latin
    // with no space to separate them — the arrangement that exposed a
    // buffered connector surfacing on the wrong side of a run.
    let source = "O = ᠥ。辅音 q（阳）/k（阴）= ᠬ，S=ᠱ，=ᠴ，j=ᠵ。规则：ᠱ(S) 不出现在 i 前，\u{201c}shi\u{201d} 音写作 si。";
    let layout = layout_text(source, &LayoutConfig::default());
    let mut rebuilt = String::new();
    for column in &layout.columns {
        for slot in &column.slots {
            match slot {
                Slot::Upright(s) | Slot::LatinWord(s) | Slot::MongolianRun(s)
                | Slot::VerticalPunctuation(s) | Slot::CornerPunctuation(s)
                | Slot::Neutral(s) | Slot::Space(s) => rebuilt.push_str(s),
            }
        }
    }
    // Whitespace included: a dropped space makes `可在 gerel.net 检索`
    // come back as `可在gerel.net检索`, which is close enough to look
    // right and wrong to quote.
    assert_eq!(rebuilt, source, "layout must not add, drop, or swap characters");
}

#[test]
fn a_leading_mark_joins_the_word_that_follows() {
    let layout = layout_text("-n_a / -n_e", &LayoutConfig::default());
    let marks: Vec<&Slot> = layout.columns[0].slots.iter()
        .filter(|slot| !matches!(slot, Slot::Space(_))).collect();
    assert_eq!(marks, vec![
        &Slot::LatinWord("-n_a".into()),
        // A slash separates alternatives, so each gets its own row. It
        // stays upright: a turned slash reads as a backslash.
        &Slot::Neutral("/".into()),
        &Slot::LatinWord("-n_e".into()),
    ]);
}
/// A slash breaks a word even between letters: `uu/UU` is two forms, and
/// each wants its own row.
#[test]
fn a_slash_always_breaks() {
    let layout = layout_text("uu/UU", &LayoutConfig::default());
    assert_eq!(layout.columns[0].slots, vec![
        Slot::LatinWord("uu".into()),
        Slot::Neutral("/".into()),
        Slot::LatinWord("UU".into()),
    ]);
}
/// Fullwidth punctuation must never be swallowed by an adjacent Latin
/// letter: `q（阳）` is a letter, a bracket, an ideograph, a bracket.
#[test]
fn fullwidth_marks_never_join_a_latin_word() {
    let layout = layout_text("q（阳）", &LayoutConfig::default());
    assert_eq!(layout.columns[0].slots, vec![
        Slot::LatinWord("q".into()),
        Slot::VerticalPunctuation("（".into()),
        Slot::Upright("阳".into()),
        Slot::VerticalPunctuation("）".into()),
    ]);
}
#[test]
fn the_same_mark_standing_alone_takes_a_vertical_form() {
    // Nothing holds it on the left, so it is punctuation again.
    let layout = layout_text("好（天）= 川", &LayoutConfig::default());
    let marks: Vec<&Slot> = layout.columns[0].slots.iter()
        .filter(|slot| !matches!(slot, Slot::Space(_))).collect();
    assert_eq!(marks, vec![
        &Slot::Upright("好".into()),
        &Slot::VerticalPunctuation("（".into()),
        &Slot::Upright("天".into()),
        &Slot::VerticalPunctuation("）".into()),
        &Slot::VerticalPunctuation("=".into()),
        &Slot::Upright("川".into()),
    ]);
}
/// The orientation measure counts slots, not characters. A Chinese
/// sentence quoting romanization has more Latin letters than Han
/// characters and is still, plainly, a Chinese sentence.
#[test]
fn romanization_does_not_flip_a_chinese_sentence_horizontal() {
    assert!(!prefers_horizontal(
        "3. 将来否定 = 词典形 + Ugei：bi yabuqu Ugei（我不去），不是 *yabun_a Ugei。"));
    assert!(!prefers_horizontal("4. 疑问词 uu/UU 也和谐：iren_e UU。"));
    assert!(!prefers_horizontal(
        "Ugei 否定\u{201d}有\u{201d}，bisi 否定\u{201d}是\u{201d}：mori Ugei（没有马）vs tere mori bisi（那不是马）。"));
    // Genuine English still goes horizontal.
    assert!(prefers_horizontal("It is a truth universally acknowledged, that a single man"));
}

#[test]
fn progression_is_carried_as_data() {
    let config = LayoutConfig { progression: Progression::LeftToRight, ..Default::default() };
    assert_eq!(layout_text("ᠮᠣᠩᠭᠤᠯ", &config).progression, Progression::LeftToRight);
}
/// The suffix separator holds a case ending onto its stem, and the layout
/// must keep them in one run.
///
/// `ᠮᠣᠩᠭᠣᠯ` + U+202F + `ᠤᠨ` is one word, the genitive "Mongolia's". Because
/// Unicode gives U+202F `White_Space=Yes`, the whitespace branch used to
/// close the run, emit a `Space` slot, and open a second run — which on
/// the page is a half-em gap with the case ending stranded below it, read
/// by anyone who reads the script as two words instead of one.
#[test]
fn a_suffix_separator_is_part_of_the_word_not_a_space() {
    let genitive = "ᠮᠣᠩᠭᠣᠯ\u{202F}ᠤᠨ";
    assert_eq!(layout_text(genitive, &LayoutConfig::default()).columns[0].slots,
        vec![Slot::MongolianRun(genitive.into())],
        "the joint must stay inside the run it joins");
    // Every case ending attaches the same way, and a word may carry more
    // than one joint.
    let dative = "ᠮᠣᠩᠭᠣᠯ\u{202F}ᠳᠤ\u{202F}ᠪᠠᠨ";
    assert_eq!(layout_text(dative, &LayoutConfig::default()).columns[0].slots,
        vec![Slot::MongolianRun(dative.into())]);
    // A word space between two suffixed words is still a word space: the
    // fix must not swallow the boundary it does not own.
    let phrase = "ᠮᠣᠩᠭᠣᠯ\u{202F}ᠤᠨ ᠲᠡᠦᠬᠡ\u{202F}ᠶᠢ";
    assert_eq!(layout_text(phrase, &LayoutConfig::default()).columns[0].slots, vec![
        Slot::MongolianRun("ᠮᠣᠩᠭᠣᠯ\u{202F}ᠤᠨ".into()),
        Slot::Space(" ".into()),
        Slot::MongolianRun("ᠲᠡᠦᠬᠡ\u{202F}ᠶᠢ".into()),
    ]);
}

/// The other half of the contract: U+202F joins only where bichig holds it
/// on both sides. Elsewhere it is the narrow space its name describes —
/// French uses it before a colon, and typography uses it to group digits —
/// so it keeps its own slot there, exactly as any other space would.
#[test]
fn a_narrow_space_outside_bichig_is_still_a_space() {
    // Nothing Mongolian on the left.
    assert_eq!(layout_text("好\u{202F}ᠤᠨ", &LayoutConfig::default()).columns[0].slots, vec![
        Slot::Upright("好".into()),
        Slot::Space("\u{202F}".into()),
        Slot::MongolianRun("ᠤᠨ".into()),
    ]);
    // Nothing Mongolian on the right: the run closes and the mark falls
    // back to being the space it also is.
    assert_eq!(layout_text("ᠮᠣᠩᠭᠣᠯ\u{202F}好", &LayoutConfig::default()).columns[0].slots, vec![
        Slot::MongolianRun("ᠮᠣᠩᠭᠣᠯ".into()),
        Slot::Space("\u{202F}".into()),
        Slot::Upright("好".into()),
    ]);
    // A newline is not a suffix either, and the mark must not follow the
    // column break: it belongs to the column the stem is in.
    let broken = layout_text("ᠮᠣᠩᠭᠣᠯ\u{202F}\nᠤᠨ", &LayoutConfig::default());
    assert_eq!(broken.columns[0].slots, vec![
        Slot::MongolianRun("ᠮᠣᠩᠭᠣᠯ".into()),
        Slot::Space("\u{202F}".into()),
    ]);
    assert_eq!(broken.columns[1].slots, vec![Slot::MongolianRun("ᠤᠨ".into())]);
    // Nothing follows it at all.
    assert_eq!(layout_text("ᠮᠣᠩᠭᠣᠯ\u{202F}", &LayoutConfig::default()).columns[0].slots, vec![
        Slot::MongolianRun("ᠮᠣᠩᠭᠣᠯ".into()),
        Slot::Space("\u{202F}".into()),
    ]);
    // Latin on both sides is not bichig: the mark never joins the word.
    assert_eq!(layout_text("Chapitre\u{202F}: 1", &LayoutConfig::default()).columns[0].slots, vec![
        Slot::LatinWord("Chapitre".into()),
        Slot::Space("\u{202F}".into()),
        Slot::VerticalPunctuation(":".into()),
        Slot::Space(" ".into()),
        Slot::LatinWord("1".into()),
    ]);
}

/// `layout_never_alters_a_single_character`, over text full of joints.
/// Whether a separator joined a word or stood as a space, it must come
/// back in place and in order — a buffered mark that resurfaces on the
/// wrong side of a run is the same defect as a dropped one.
#[test]
fn suffix_separators_survive_the_round_trip() {
    let source = "ᠮᠣᠩᠭᠣᠯ\u{202F}ᠤᠨ ᠲᠡᠦᠬᠡ\u{202F}ᠶᠢ 读\u{202F}好 ᠪᠢ\u{202F}\nᠮᠣᠩᠭᠣᠯ\u{202F}";
    let layout = layout_text(source, &LayoutConfig::default());
    let mut rebuilt = String::new();
    for (index, column) in layout.columns.iter().enumerate() {
        if index > 0 { rebuilt.push('\n'); }
        for slot in &column.slots {
            match slot {
                Slot::Upright(s) | Slot::LatinWord(s) | Slot::MongolianRun(s)
                | Slot::VerticalPunctuation(s) | Slot::CornerPunctuation(s)
                | Slot::Neutral(s) | Slot::Space(s) => rebuilt.push_str(s),
            }
        }
    }
    assert_eq!(rebuilt, source, "a joint must not be added, dropped, or moved");
}

/// The orientation measure counts slots, so it has to count a suffixed
/// word the way the layout does: once.
#[test]
fn the_orientation_measure_counts_a_suffixed_word_once() {
    let genitive = "ᠮᠣᠩᠭᠣᠯ\u{202F}ᠤᠨ";
    assert_eq!(layout_text(genitive, &LayoutConfig::default()).columns[0].slots.len(), 1);
    // Two Latin slots against one Mongolian slot. Counted as two the word
    // would have tied the line and held it vertical — the same word
    // weighed twice. The unsuffixed stem in the same sentence has always
    // gone this way, so the fix only made the two agree; it is not a
    // judgment that bichig belongs on a horizontal line.
    assert!(prefers_horizontal("ᠮᠣᠩᠭᠣᠯ is written"));
    assert!(prefers_horizontal(&format!("{genitive} is written")));
    // And bichig on its own is never called horizontal, joints or not.
    assert!(!prefers_horizontal("ᠮᠣᠩᠭᠣᠯ\u{202F}ᠤᠨ ᠲᠡᠦᠬᠡ\u{202F}ᠶᠢ"));
}

#[test]
fn code_mode_keeps_indentation_as_blank_rows() {
    let config = LayoutConfig { max_latin_word_width: 24, preserve_spaces: true, ..Default::default() };
    let layout = layout_text("  let", &config);
    assert_eq!(layout.columns[0].slots, vec![
        Slot::Space(" ".into()),
        Slot::Space(" ".into()),
        Slot::LatinWord("let".into()),
    ]);
}

/// The measure and the layout may not disagree about what a slot is.
///
/// This is the invariant, not the answer for any one string. Pinning
/// `prefers_horizontal("ᠢᠢis written") == false` records a symptom and
/// becomes a puzzle at the next change; a disagreement between these two
/// counts is always a defect. Issue #4 was exactly such a disagreement,
/// and it ran in both directions: a Latin word swallowed after a bichig
/// run, and a bichig run swallowed after a Latin word.
///
/// Consecutive `LatinWord` slots count as one, because that is
/// hyphenation: `internationalization` lays out as two slots and is one
/// word with one opinion about direction. Consecutive `Upright` slots are
/// not merged — each ideograph really is its own slot and its own vote.
#[test]
fn the_measure_counts_the_slots_the_layout_produces() {
    let cases = [
        // The pair from issue #4: identical content, opposite order.
        "ᠰᠠᠶᠢᠨ(sayin) good",
        "sayin(ᠰᠠᠶᠢᠨ) good",
        // Script boundaries with no space between, both directions.
        "writtenᠢᠢ",
        "ᠢᠢis written",
        "ᠢᠢ is written",
        "the ᠮᠣᠩᠭᠣᠬscript",
        "ᠢᠢ好",
        "好is written",
        // The suffix separator, joining and not joining.
        "ᠮᠣᠩᠭᠣᠬ\u{202F}ᠤᠨ",
        "ᠢᠢ\u{202F}is written",
        "ᠢᠢ\u{202F}ᠶᠨ is written",
        // Connectors inside a word, and one with no word to join.
        "kedU(n)",
        "gerel.net",
        "min-U yabun_a uu/UU",
        "ᠰᠠᠶᠢᠨ(",
        // Hyphenation: one word, two slots, one vote.
        "use-after-free",
        "internationalization",
        // Plain cases in both systems.
        "hello world",
        "山川异域，风月同天",
        "ᠢᠢ",
        "",
    ];

    for text in cases {
        let layout = layout_text(text, &LayoutConfig::default());
        let (mut vertical, mut horizontal) = (0usize, 0usize);
        let mut previous_was_latin = false;
        for slot in layout.columns.iter().flat_map(|column| column.slots.iter()) {
            match slot {
                Slot::Upright(_) | Slot::MongolianRun(_) => {
                    vertical += 1;
                    previous_was_latin = false;
                }
                Slot::LatinWord(_) => {
                    if !previous_was_latin {
                        horizontal += 1;
                    }
                    previous_was_latin = true;
                }
                _ => previous_was_latin = false,
            }
        }
        assert_eq!(
            measure_slots(text),
            (vertical, horizontal),
            "measure and layout disagree on {text:?}"
        );
    }
}

/// A word and its transliteration read the same way whichever comes first.
///
/// This is the consequence a reader sees, and the reason issue #4 was not
/// the low-severity miscount it first looked like: a glossary written
/// bichig-first and one written Latin-first are the same content, and a
/// list that mixes the two orders had its direction flip line by line.
/// The value itself is not pinned — the pair agreeing is the property.
#[test]
fn a_transliteration_pair_reads_the_same_way_in_either_order() {
    assert_eq!(
        prefers_horizontal("ᠰᠠᠶᠢᠨ(sayin) good"),
        prefers_horizontal("sayin(ᠰᠠᠶᠢᠨ) good"),
    );
}
