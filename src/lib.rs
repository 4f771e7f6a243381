//! Structural comparison of JSON-shaped trees. Two trees are walked side by
//! side and every location at which they disagree is reported with its path,
//! under a strict, an inclusive or a containment comparison of arrays and
//! objects, with numbers compared strictly or as doubles.

pub mod diff;
pub mod laws;
pub mod matching;
pub mod number;
pub mod path;
pub mod render;
pub mod text;
pub mod value;

pub use diff::{compare, contains, diff, CompareMode, Config, Difference, DifferenceKind, Mode};
pub use number::{Number, NumericMode};
pub use path::{Key, Path};
pub use render::report;
pub use text::Indent;
pub use value::Value;
