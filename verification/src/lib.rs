//! Finding files with the same content: the verified core of the `dedoop`
//! duplicate finder.

pub mod compare;
pub mod digest;
pub mod drive;
pub mod entry;
pub mod filter;
pub mod format;
pub mod found;
pub mod hidden;
pub mod lex;
pub mod links;
pub mod listing;
pub mod order;
pub mod organise;
pub mod output;
pub mod path;
pub mod permuted;
pub mod pipeline;
pub mod place;
pub mod readable;
pub mod report;
pub mod resolve;
pub mod scan;
pub mod search;
pub mod select;
pub mod stats;
pub mod taken;
pub mod text;
pub mod tree;
pub mod views;
