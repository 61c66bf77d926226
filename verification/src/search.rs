//! The kinds of nodes of a search.
use vstd::prelude::*;

verus! {

/// A kind of node, known when the code for it is compiled.
pub trait NodeType {
    const ROOT: bool;
}

/// The position that the search starts from.
pub struct Root;

/// A position inside the search tree.
pub struct Inner;

impl NodeType for Root {
    const ROOT: bool = true;
}

impl NodeType for Inner {
    const ROOT: bool = false;
}

} // verus!
