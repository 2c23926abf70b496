//! The data carried by the engine: edges, inner nodes, operator tags,
//! apply-cache entries and the allocation-failure error.

use vstd::prelude::*;

verus! {

/// A handle to a node of the diagram: either one of the two terminals,
/// carrying its Boolean value, or an inner node, identified by its index in
/// the manager's node store. Equality of edges is node identity.
#[derive(Clone, Copy, PartialEq, Eq, Structural, Debug)]
pub enum Edge {
    Terminal(bool),
    Inner(usize),
}

/// An inner node: the level of the variable it tests and its two children.
/// A node is fully determined by this triple; the store interns them so that
/// equal triples are the same node.
#[derive(Clone, Copy, PartialEq, Eq, Structural, Debug)]
pub struct BddNode {
    pub level: u32,
    pub then_child: Edge,
    pub else_child: Edge,
}

/// The binary Boolean connectives of the apply family.
#[derive(Clone, Copy, PartialEq, Eq, Structural, Debug)]
pub enum BinOp {
    And,
    Or,
    Nand,
    Nor,
    Xor,
    Equiv,
    Imp,
    ImpStrict,
}

/// Node allocation failed: the node store is at capacity.
#[derive(Clone, Copy, PartialEq, Eq, Structural, Debug)]
pub struct OutOfMemory;

/// A three-valued Boolean, used for the entries of a picked cube:
/// forced true, forced false, or don't-care.
#[derive(Clone, Copy, PartialEq, Eq, Structural, Debug)]
pub enum OptBool {
    DontCare,
    False,
    True,
}

/// A key of the apply cache: the operator tag together with the operand
/// edges, and for substitution the numeric salt that identifies the
/// substitution environment.
#[derive(Clone, Copy, PartialEq, Eq, Structural, Debug)]
pub enum CacheKey {
    Not(Edge),
    Bin(BinOp, Edge, Edge),
    Ite(Edge, Edge, Edge),
    Restrict(Edge, Edge),
    Quant(BinOp, Edge, Edge),
    Subst(Edge, u64),
}

/// An entry of the apply cache: a key and the memoized result edge.
#[derive(Clone, Copy, PartialEq, Eq, Structural, Debug)]
pub struct CacheEntry {
    pub key: CacheKey,
    pub res: Edge,
}

} // verus!
