//! Base types used around the crate.

use std::ops::Deref;
use vstd::prelude::*;

verus! {

/// Base scalar type: the bit pattern of an IEEE 754 binary32 number.
///
/// The library moves scalars around and compares them (see [`crate::scalar`]);
/// arithmetic on them belongs to the operations and to [`crate::random::Reals`].
pub type Scalar = u32;

/// Identifier for an expression root in an arena.
#[derive(Debug, Clone, Copy, PartialEq, Eq, PartialOrd, Structural)]
pub struct RootId(pub usize);

/// Identifier for a node in an arena.
#[derive(Debug, Clone, Copy, PartialEq, Eq, PartialOrd, Structural)]
pub struct NodeId(pub usize);

/// Identifier for a user variable.
#[derive(Debug, Clone, Copy, PartialEq, Eq, PartialOrd, Structural)]
pub struct VariableId(pub u16);

/// Identifier for a constant or optimizable parameter.
#[derive(Debug, Clone, Copy, PartialEq, Eq, PartialOrd, Structural)]
pub struct ParameterId(pub u16);

/// Identifier for an operation.
#[derive(Debug, Clone, Copy, PartialEq, Eq, PartialOrd, Structural)]
pub struct OperationId(pub u16);

impl From<usize> for RootId {
    fn from(v: usize) -> (r: Self) {
        RootId(v)
    }
}

impl vstd::std_specs::convert::FromSpecImpl<usize> for RootId {
    open spec fn obeys_from_spec() -> bool {
        true
    }

    open spec fn from_spec(v: usize) -> Self {
        RootId(v)
    }
}

impl From<RootId> for usize {
    fn from(v: RootId) -> (r: Self) {
        v.0
    }
}

impl vstd::std_specs::convert::FromSpecImpl<RootId> for usize {
    open spec fn obeys_from_spec() -> bool {
        true
    }

    open spec fn from_spec(v: RootId) -> Self {
        v.0
    }
}

impl From<usize> for NodeId {
    fn from(v: usize) -> (r: Self) {
        NodeId(v)
    }
}

impl vstd::std_specs::convert::FromSpecImpl<usize> for NodeId {
    open spec fn obeys_from_spec() -> bool {
        true
    }

    open spec fn from_spec(v: usize) -> Self {
        NodeId(v)
    }
}

impl From<NodeId> for usize {
    fn from(v: NodeId) -> (r: Self) {
        v.0
    }
}

impl vstd::std_specs::convert::FromSpecImpl<NodeId> for usize {
    open spec fn obeys_from_spec() -> bool {
        true
    }

    open spec fn from_spec(v: NodeId) -> Self {
        v.0
    }
}

impl From<u16> for VariableId {
    fn from(v: u16) -> (r: Self) {
        VariableId(v)
    }
}

impl vstd::std_specs::convert::FromSpecImpl<u16> for VariableId {
    open spec fn obeys_from_spec() -> bool {
        true
    }

    open spec fn from_spec(v: u16) -> Self {
        VariableId(v)
    }
}

impl From<VariableId> for u16 {
    fn from(v: VariableId) -> (r: Self) {
        v.0
    }
}

impl vstd::std_specs::convert::FromSpecImpl<VariableId> for u16 {
    open spec fn obeys_from_spec() -> bool {
        true
    }

    open spec fn from_spec(v: VariableId) -> Self {
        v.0
    }
}

impl Deref for VariableId {
    type Target = u16;

    fn deref(&self) -> (r: &u16)
        ensures
            *r == self.0,
    {
        &self.0
    }
}

impl From<u16> for ParameterId {
    fn from(v: u16) -> (r: Self) {
        ParameterId(v)
    }
}

impl vstd::std_specs::convert::FromSpecImpl<u16> for ParameterId {
    open spec fn obeys_from_spec() -> bool {
        true
    }

    open spec fn from_spec(v: u16) -> Self {
        ParameterId(v)
    }
}

impl From<ParameterId> for u16 {
    fn from(v: ParameterId) -> (r: Self) {
        v.0
    }
}

impl vstd::std_specs::convert::FromSpecImpl<ParameterId> for u16 {
    open spec fn obeys_from_spec() -> bool {
        true
    }

    open spec fn from_spec(v: ParameterId) -> Self {
        v.0
    }
}

impl Deref for ParameterId {
    type Target = u16;

    fn deref(&self) -> (r: &u16)
        ensures
            *r == self.0,
    {
        &self.0
    }
}

impl From<u16> for OperationId {
    fn from(v: u16) -> (r: Self) {
        OperationId(v)
    }
}

impl vstd::std_specs::convert::FromSpecImpl<u16> for OperationId {
    open spec fn obeys_from_spec() -> bool {
        true
    }

    open spec fn from_spec(v: u16) -> Self {
        OperationId(v)
    }
}

impl From<OperationId> for u16 {
    fn from(v: OperationId) -> (r: Self) {
        v.0
    }
}

impl vstd::std_specs::convert::FromSpecImpl<OperationId> for u16 {
    open spec fn obeys_from_spec() -> bool {
        true
    }

    open spec fn from_spec(v: OperationId) -> Self {
        v.0
    }
}

/// The low 16 bits of a length: parameter and operation identifiers are
/// handed out by position, and wrap round where the position outgrows them.
pub open spec fn low16(n: nat) -> u16 {
    (n % 65536) as u16
}

/// Truncates a position to the width of a parameter or operation identifier.
pub fn truncate16(n: usize) -> (r: u16)
    ensures
        r == low16(n as nat),
        n < 65536 ==> r == n,
{
    #[verifier::truncate]
    let r = n as u16;
    assert(r == n % 65536) by (bit_vector)
        requires
            r == n as u16,
    ;
    r
}

} // verus!
