//! The Node: one machine in an Xmip Cluster, its roles and what it can do.
//!
//! [`Stage`] is the one reading of what a node declares it serves on the
//! message path; [`Capability`] is what a node declares, in the two forms it
//! publishes it; [`Declaration`] is what a System Process says of itself.
pub mod capability;
pub mod declaration;
pub mod stage;
pub mod stage_laws;
pub mod text;
pub mod toml;

pub use capability::Capability;
pub use declaration::{Declaration, Purpose};
pub use stage::Stage;

use std::collections::BTreeSet;
use vstd::prelude::*;

verus! {

/// What a node is for.
#[derive(Clone, Copy, Debug, PartialEq, Eq, Structural, PartialOrd, Ord)]
pub enum NodeRole {
    Operational,
    Monitoring,
    Executing,
    Development,
}

/// The identity of a node in its cluster.
#[derive(Clone, Copy, Debug, PartialEq, Eq, Structural, PartialOrd, Ord, Hash)]
pub struct NodeId {
    value: u64,
}

impl View for NodeId {
    type V = u64;

    closed spec fn view(&self) -> u64 {
        self.value
    }
}

impl NodeId {
    /// The node with this number.
    pub fn new(value: u64) -> (r: Self)
        ensures
            r@ == value,
    {
        NodeId { value }
    }

    /// The number of this node.
    pub fn get(&self) -> (r: u64)
        ensures
            r == self@,
    {
        self.value
    }
}

/// One machine in a cluster: its roles and the capabilities it declares.
#[derive(Clone, Debug, Eq, PartialEq)]
pub struct Node {
    pub node_id: NodeId,
    pub name: String,
    pub roles: BTreeSet<NodeRole>,
    pub capabilities: BTreeSet<String>,
    pub trusted: bool,
}

/// Whether `set` holds a string with the characters `item`.
pub open spec fn holds_string(set: Set<String>, item: Seq<char>) -> bool {
    exists|x: String| set.contains(x) && x@ == item
}

/// Whether `set` holds a string equal to `item`.
///
/// Calls `BTreeSet::contains`, which finds an element equal to the value
/// looked up; two strings are equal exactly when they hold the same
/// characters, which is what the contract claims.
#[verifier::external_body]
fn set_holds(set: &BTreeSet<String>, item: &str) -> (r: bool)
    ensures
        r == holds_string(set@, item@),
{
    set.contains(item)
}

impl Node {
    /// Whether the node declares `capability`: exactly what it declares,
    /// nothing inferred.
    pub fn supports(&self, capability: &str) -> (r: bool)
        ensures
            r == holds_string(self.capabilities@, capability@),
    {
        set_holds(&self.capabilities, capability)
    }
}

} // verus!
