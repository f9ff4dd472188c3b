//! Styling and wrapping of diff text for terminal display.
use vstd::prelude::*;

pub mod text;
pub mod width;
pub mod paint;
pub mod model;
pub mod color;
pub mod groups;
pub mod sort;
pub mod whitespace;
pub mod render;
pub mod header;

verus! {

} // verus!
