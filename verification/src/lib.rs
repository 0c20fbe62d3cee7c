//! Conversion of parsed HTML into a namespace-aware document tree.
//!
//! The crate holds a small arena-backed document tree ([`Xot`]), a plain model
//! of the DOM that the HTML parser hands back ([`SourceDom`]), and the
//! converter that walks the one into the other ([`parse_html`]).

pub mod convert;
pub mod error;
pub mod html5;
pub mod id;
pub mod rcdom;
pub mod source;
pub mod xotdata;

pub use crate::error::{Error, ParseError};
pub use crate::html5::{check_diagnostics, convert_document, find_fragment_root, parse_html, DomConverter};
pub use crate::id::{NameId, NamespaceId};
pub use crate::source::{QualifiedName, SourceAttribute, SourceData, SourceDom, SourceNode};
pub use crate::xotdata::{Element, NodeId, Value, Xot};
