//! A CSS selector engine over an arena document tree: selector text is
//! compiled into a selector list, matched against nodes, and used to filter
//! node sequences lazily in either direction.

pub mod canonical;
pub mod chars;
pub mod events;
pub mod form;
pub mod laws;
pub mod parser;
pub mod pseudo;
pub mod select;
pub mod selector;
pub mod tree;

pub use crate::chars::CaseSensitivity;
pub use crate::events::Event;
pub use crate::form::{FormData, FormValue};
pub use crate::parser::{parse, ParseError};
pub use crate::pseudo::{PseudoClass, PseudoElement};
pub use crate::select::Select;
pub use crate::selector::{AttrOperator, Combinator, Selector, Selectors, SimpleSelector};
pub use crate::tree::{Attribute, NodeData, Tree};
