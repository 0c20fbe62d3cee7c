//! Compact identifiers for interned namespaces and names.

use vstd::prelude::*;

verus! {

/// Identifier of a namespace URI interned in a tree.
///
/// The number is the position of the URI in the tree's namespace table.
#[derive(Clone, Copy, Debug, PartialEq, Eq, Structural, Hash)]
pub struct NamespaceId(pub usize);

/// Identifier of a name (a local name together with its namespace) interned
/// in a tree.
///
/// The number is the position of the name in the tree's name table.
#[derive(Clone, Copy, Debug, PartialEq, Eq, Structural, Hash)]
pub struct NameId(pub usize);

} // verus!
