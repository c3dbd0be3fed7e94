//! Styled text rendering: a document model built by composition, and a
//! selector stylesheet that resolves the style of every text run by its
//! nesting of named sections.

use vstd::prelude::*;

pub mod cascade;
pub mod document;
pub mod error;
pub mod lines;
pub mod render;
pub mod style;
pub mod stylesheet;
pub mod text;

pub use document::{Document, Instruction, Node, Unbalanced};
pub use render::{combine, repeat, Combine, Each, FormattedText, IfSome, Join, Line, Render, Section};
pub use lines::{
    ComponentNode, ComponentNodeBuilder, DocumentNode, DocumentNodeBuilder, LineNode, LineNodeBuilder,
    TextNode,
};
pub use error::{ConfigError, ConfigFault};
pub use style::{Attributes, ColorValue, Style};
pub use stylesheet::{Segment, Stylesheet};
