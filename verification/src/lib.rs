//! Derive structured values from text with declarative patterns.
//!
//! A [`shape::Shape`] describes the alternatives (variants) a value may take:
//! each variant either carries a pattern with named capture groups, delegates
//! transparently to a nested shape, or serves as a default fallback.  A shape
//! offers exact whole-input matching (`from_text`) and a search over arbitrary
//! text that returns all non-overlapping occurrences, preferring longer
//! matches (`match_locations`, `matches`).
//!
//! The pattern-matching primitive is the `regex` crate; everything around it
//! (capture-set analysis, variant selection, interval bookkeeping) is verified.

#![allow(unused_imports)]

pub mod captures;
pub mod laws;
pub mod rex;
pub mod shape;
pub mod segmap;
pub mod value;

pub use captures::{from_regex_pattern, GroupSpec};
pub use segmap::{SegEntry, SegmentMap};
pub use shape::{MatchFault, MatchMode, Shape, ShapeError, VariantDef, VariantKind};
pub use value::Value;
