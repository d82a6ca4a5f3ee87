//! A whole document: blocks that advance in one direction, each set vertically, horizontally,
//! or as a table.

use crate::layout::{Column, Layout, Progression};
use vstd::prelude::*;

verus! {

/// A whole document: a sequence of blocks that advance in one direction.
#[derive(Clone, Debug, PartialEq, Eq)]
pub struct Document {
    pub blocks: Vec<Block>,
    pub progression: Progression,
}

#[derive(Clone, Debug, PartialEq, Eq)]
pub enum Block {
    /// Vertical columns of slots: CJK, Mongolian, mixed prose.
    Vertical(Layout),
    /// A run set horizontally: Latin-majority prose, and program source.
    Horizontal(HorizontalBlock),
    /// A table; under a vertical progression its rows become columns.
    Table(Table),
}

#[derive(Clone, Debug, PartialEq, Eq)]
pub struct HorizontalBlock {
    pub text: String,
    /// Line length in characters. Line breaking itself is the host's job.
    pub wrap_columns: usize,
    pub kind: HorizontalKind,
}

#[derive(Clone, Copy, Debug, PartialEq, Eq, Structural)]
pub enum HorizontalKind {
    /// The measure: 45–75 characters, 66 the long-settled optimum.
    Prose,
    /// Program source, at the narrower of the common style-guide limits.
    Code,
}

impl HorizontalKind {
    pub open spec fn spec_default_wrap(self) -> usize {
        match self {
            HorizontalKind::Prose => 66,
            HorizontalKind::Code => 80,
        }
    }

    /// The conventional line length of this kind of horizontal block.
    pub fn default_wrap(self) -> (wrap: usize)
        ensures
            wrap == self.spec_default_wrap(),
    {
        match self {
            HorizontalKind::Prose => 66,
            HorizontalKind::Code => 80,
        }
    }
}

#[derive(Clone, Debug, PartialEq, Eq)]
pub struct Table {
    pub rows: Vec<Row>,
}

#[derive(Clone, Debug, PartialEq, Eq)]
pub struct Row {
    /// Each cell is laid out as its own column of slots.
    pub cells: Vec<Column>,
    pub header: bool,
}

} // verus!
