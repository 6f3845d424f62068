//! JsonML: a compact array-based encoding of markup trees.
//!
//! A markup tree is either a text leaf or a named tag with attributes and
//! ordered children. The crate converts between such trees and their
//! positional wire encoding, and renders trees as HTML text.

pub mod tree;
pub mod wire;
pub mod decode;
pub mod encode;
pub mod laws;
pub mod render;

pub use tree::{AttributeValue, Element, Tag};
pub use wire::Value;
pub use decode::{decode, DecodeError};
pub use encode::encode;
pub use render::{render, RenderError};
