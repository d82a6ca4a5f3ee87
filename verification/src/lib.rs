//! Unicode-aware vertical text layout: text in, columns of slots out.

pub mod text;
pub mod layout;
pub mod orientation;
pub mod document;
pub mod geometry;
pub mod html;
pub mod host;

pub use layout::{
    closes_open_bracket, layout_clusters, layout_text, split_latin_word, Column, Layout, LayoutConfig, Progression,
    Slot, SlotKind, INSERTED_HYPHEN,
};
pub use orientation::{measure_clusters, measure_slots, prefers_horizontal};
pub use document::{Block, Document, HorizontalBlock, HorizontalKind, Row, Table};
pub use geometry::{
    layout_with_source_map, slot_text, source_map, Caret, SlotSource,
    SourceMap, SourceMapError,
};
pub use html::{
    code_config, column_advance, escape, heading_marker, prose_config, render_document, Mode,
    RenderOptions, CELL_SEP, CODE_LATIN_CAP, MAX_HEADING_LEVEL, MODE_CODE, MODE_HEADING_BASE,
    MODE_LIST, MODE_LIST_ORDERED, MODE_PROSE, MODE_TABLE, PROSE_LATIN_CAP, RESERVED_END, ROW_SEP,
};
