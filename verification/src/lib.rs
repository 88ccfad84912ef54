//! The logic of a log viewer: parsing, filtering, highlighting and navigating
//! device logs, decoding log files, and the viewer's settings.

pub mod text;
pub mod utf8;
pub mod split;
pub mod number;
pub mod collections;
pub mod model;
pub mod parser;
pub mod filter;
pub mod refilter;
pub mod ingest;
pub mod color;
pub mod highlight;
pub mod selection;
pub mod transport;
pub mod properties;
pub mod config;
pub mod import;
pub mod order;
pub mod picker;
pub mod ui;
pub mod indicator;
pub mod lines;
pub mod bytes;
pub mod io;
pub mod adb;
pub mod status;
pub mod ellipsis;
pub mod lang;
pub mod shortcuts;
pub mod fonts;
pub mod caches;
pub mod choices;
pub mod app;
pub mod actions;
