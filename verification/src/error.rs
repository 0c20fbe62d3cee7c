//! The errors of the tree and of HTML parsing.

use vstd::prelude::*;

verus! {

/// Why an operation on a tree was refused.
#[derive(Debug)]
pub enum Error {
    /// The nodes cannot be linked as asked: the parent cannot hold children,
    /// the child is a document or sits in a tree already, the child is above
    /// the parent, or one of the two is no node of the tree.
    InvalidOperation,
    /// The node is not a text node.
    NotText,
    /// The node is not an element.
    NotElement,
}

/// Why an HTML text was not turned into a document.
#[derive(Debug)]
pub enum ParseError {
    /// The input could not be read to its end; the text is the reader's
    /// message.
    Io(String),
    /// The parser found the input malformed; the texts are its diagnostics,
    /// in the order in which it reported them. There is at least one.
    HtmlParse(Vec<String>),
}

} // verus!
