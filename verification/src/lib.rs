//! Surgical patching of spreadsheet packages.
//!
//! A workbook is a ZIP archive of XML parts.  This library changes cell
//! values and cell styles in such a package by rewriting only the parts that
//! are touched: the worksheet parts that hold patched cells, and the style
//! sheet when a new style is needed.  Everything here works on the text of
//! the parts; reading and writing the archive is left to the caller.
//!
//! The parts of the library, from the ground up:
//!
//! - [`text`]: byte strings, numerals and UTF-8;
//! - [`xml`]: a document as a sequence of events, read by the `quick-xml`
//!   reader, and the attributes of tags;
//! - [`cell_ref`]: cell references in A1 notation;
//! - [`sheet_patcher`]: the pass that rewrites the cells of one worksheet,
//!   with [`sheet_laws`] for what holds of every such pass;
//! - [`styles`]: the records of the style sheet and the catalog that adds
//!   styles to it, with [`style_laws`];
//! - [`shared_strings`]: the shared string table;
//! - [`ooxml_util`] and [`package_index`]: the paths of parts, and which
//!   part holds which sheet;
//! - [`patcher`]: the queue of changes and the plan of a save.
//!
//! Every function carries a contract, and every contract is proved.  What is
//! taken on trust of `quick-xml` and of the standard library stands in
//! [`xml`] and [`text`], in functions marked `external_body`.

pub mod cell_ref;
pub mod ooxml_util;
pub mod package_index;
pub mod patcher;
pub mod shared_strings;
pub mod sheet_laws;
pub mod sheet_patcher;
pub mod style_laws;
pub mod styles;
pub mod text;
pub mod xml;
