//! The document-model core of a text editor: a height-aware sequence, text
//! edits that carry a selection along, and caret movement.
use vstd::prelude::*;

pub mod edit;
pub mod height;
pub mod key_bindings;
pub mod movement;
pub mod selection;
pub mod text;
pub mod vector;

pub use edit::EditOp;
pub use height::{Height, HEIGHT_FRAC_BITS};
pub use key_bindings::{Command, Key, KeyBindings};
pub use movement::{Measurement, Movement};
pub use selection::{Horiz, SelRegion, Selection};
pub use text::{rope_eq, TextBuffer};
pub use vector::{BaseMetric, HeightMetric, Vector, VectorBuilder, VectorInfo, MAX_LEAF, MIN_LEAF};

verus! {

} // verus!
