//! Turns screenshots of in-game trade terminals into commodity price reports.
//!
//! The words recognised on a screenshot ([`ocr`]) are matched against the lists
//! of known commodities and terminals ([`reference`], [`matching`]) and become
//! an extraction ([`extract`], [`screen`], [`merge`], [`model`]), which is reviewed
//! ([`review`]), submitted ([`api`]) and remembered ([`store`], [`trade`]).
//! [`session`] ties the events of a running program together. Nothing here
//! touches the disk, the network or the screen: callers do, and hand in plain
//! values.

pub mod api;
pub mod blob;
pub mod card;
pub mod clock;
pub mod confidence;
pub mod config;
pub mod deskew;
pub mod double;
pub mod extract;
pub mod json;
pub mod labels;
pub mod matching;
pub mod merge;
pub mod model;
pub mod number;
pub mod ocr;
pub mod order;
pub mod paths;
pub mod pattern;
pub mod pipeline;
pub mod preprocess;
pub mod pricing;
pub mod reference;
pub mod review;
pub mod screen;
pub mod session;
pub mod single;
pub mod status;
pub mod store;
pub mod text;
pub mod trade;
pub mod watcher;

pub use crate::model::{Commodity, Extraction, TerminalRef, TerminalType};
pub use crate::reference::Reference;
