//! Verified core of the Trapo OCR workbench server.

use vstd::prelude::*;

pub mod text;
pub mod ids;
pub mod markers;
pub mod ocr_page;
pub mod segments;
pub mod segment_laws;
pub mod catalog;
pub mod runtime;
pub mod logs;
pub mod dialog;
pub mod config;
pub mod workbench;
pub mod native;
pub mod order;
pub mod search;
pub mod regions;
pub mod ingest;
pub mod cli;
pub mod ocr_worker;

verus! {

} // verus!
