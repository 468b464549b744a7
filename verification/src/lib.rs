//! Map programming-language queries to their colors, and colors to the
//! nearest entry of the fixed 256-color xterm palette.
//!
//! The crate has two independent parts, combined only by the caller:
//! a tokenized search index built from a language dataset
//! ([`index::Linguist`], [`index::ColorMap`]), and a nearest-color search
//! over the xterm palette under a choice of distance metric
//! ([`nearest::find_nearest_color`]).

pub mod error;
pub mod hex;
pub mod index;
pub mod nearest;
pub mod palette;
pub mod text;
pub mod token;
