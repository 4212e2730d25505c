//! Acord: a markdown notepad whose notes carry Cordial code. This library
//! holds the verified logic of the notepad: classifying note lines,
//! splitting documents into blocks and modules, naming tables, ordering
//! module evaluation and planning what the interpreter runs, ordering and
//! resolving table cell formulas, tokenizing and parsing Cordial source
//! and cell formulas, reading `use` declarations, cell
//! addresses and unit labels, the note index, settings, the browser's
//! listing and selection, undo history, caret positions and the edits made
//! around the caret, keyboard input, and the editor's text helpers.
use vstd::prelude::*;

pub mod text;
pub mod doc;
pub mod num;
pub mod cells;
pub mod eval_order;
pub mod module;
pub mod persist;
pub mod config;
pub mod blocks;
pub mod editor;
pub mod export;
pub mod document;
pub mod eval;
pub mod uses;
pub mod browser;
pub mod shortcuts;
pub mod highlight;
pub mod formulas;
pub mod undo;
pub mod caret;
pub mod keys;
pub mod lexer;
pub mod anchors;
pub mod parser;
