//! A pretty printer in the style of "A Pretty Expressive Printer", without the
//! align primitive: documents are interned in an arena and resolved to the
//! Pareto frontier of their layouts.

pub mod cost;
pub mod document;
pub mod fit;
pub mod frontier;
pub mod interned_map;
pub mod laws;
pub mod layout;
pub mod lift;
pub mod measure;
pub mod optimality;
pub mod render;
pub mod resolve;
pub mod select;
pub mod soundness;
