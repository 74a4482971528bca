//! Vocabulary shared by the kernel graph primitives: node and edge kinds,
//! Q16 weights, identifiers and tick timestamps.

use vstd::prelude::*;

verus! {

/// Number of public node kinds; one type channel per kind.
pub const NODE_KIND_COUNT: usize = 38;

/// Q16 fixed-point one.
pub const WEIGHT_ONE: u32 = 65536;

pub type Weight = u32;

pub type NodeId = u64;

pub type Timestamp = u64;

/// A public node kind, numbered `0 .. NODE_KIND_COUNT` on the wire.
#[derive(Clone, Copy, Debug, PartialEq, Eq, Structural)]
pub struct NodeKind {
    code: u16,
}

impl NodeKind {
    #[verifier::type_invariant]
    spec fn in_range(self) -> bool {
        self.code < NODE_KIND_COUNT
    }

    /// The wire number of this kind.
    pub closed spec fn id(self) -> nat {
        self.code as nat
    }

    /// The kind with wire number `value`, if there is one.
    pub fn from_u16(value: u16) -> (r: Option<NodeKind>)
        ensures
            r is Some <==> value < NODE_KIND_COUNT,
            r matches Some(k) ==> k.id() == value,
    {
        if (value as usize) < NODE_KIND_COUNT {
            Some(NodeKind { code: value })
        } else {
            None
        }
    }

    /// The channel of this kind: its wire number.
    pub fn index(self) -> (r: usize)
        ensures
            r == self.id(),
            r < NODE_KIND_COUNT,
    {
        proof { use_type_invariant(&self); }
        self.code as usize
    }
}

/// An edge kind, by its wire number.
#[derive(Clone, Copy, Debug, PartialEq, Eq, Structural)]
pub struct EdgeKind {
    pub code: u16,
}

} // verus!
