//! Structural comparison of two JSON-like values, and a tree rendering of the
//! differences found.
//!
//! [`DeepDiff`] walks two [`Value`]s in step and reports what changed, was
//! added or was removed, each under the canonical text of its path; its
//! `pretty` renders the report as an indented tree. The walk is in `engine`,
//! the rules of equality in `policy`, paths in `path`, the rendering in
//! `change`, `tree`, `render` and `format`.
//!
//! Numbers are compared by kind and value. A caller that wants a tolerance
//! judges the numbers itself and hands over the pairs that it takes for
//! equal, as the numeric matches of [`DeepDiffOptions`]; `engine::number_pairs`
//! names the pairs that a comparison may ask about.
//!
//! What is proved of every comparison stands in `laws`, `equiv`, `canon`,
//! `swap`, `places` and `mirror`.

pub mod canon;
pub mod change;
pub mod deepdiff;
pub mod engine;
pub mod equiv;
pub mod format;
pub mod host;
pub mod json;
pub mod laws;
pub mod mirror;
pub mod options;
pub mod order;
pub mod ordered;
pub mod path;
pub mod places;
pub mod policy;
pub mod render;
pub mod swap;
pub mod text;
pub mod tree;
pub mod value;

pub use deepdiff::DeepDiff;
pub use options::DeepDiffOptions;
pub use options::PrettyOptions;
pub use options::ValueType;
pub use value::Number;
pub use value::Value;
