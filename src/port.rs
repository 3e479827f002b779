use vstd::prelude::*;

verus! {

/// Direction of a port: data leaves a node through `Out` and enters it
/// through `In`.
#[derive(Clone, Copy, Debug, PartialEq, Eq, Structural, Hash)]
pub enum IO {
    In,
    Out,
}

/// One port of one node: the node's id, the port's name, and its direction.
/// Two references are equal when all three agree.
#[derive(Debug, Hash)]
pub struct PortRef {
    pub node: u32,
    pub name: String,
    pub io: IO,
}

impl PortRef {
    /// Equality of port references, over the port name's characters.
    pub open spec fn same(self, other: PortRef) -> bool {
        self.node == other.node && self.name@ == other.name@ && self.io == other.io
    }

    pub fn new(node: u32, name: &str, io: IO) -> (r: PortRef)
        ensures
            r.node == node,
            r.name@ == name@,
            r.io == io,
    {
        PortRef { node, name: name.to_owned(), io }
    }
}

impl Clone for PortRef {
    fn clone(&self) -> (r: PortRef)
        ensures
            r == *self,
    {
        PortRef { node: self.node, name: self.name.clone(), io: self.io }
    }
}

impl PartialEq for PortRef {
    fn eq(&self, other: &PortRef) -> (r: bool)
        ensures
            r == self.same(*other),
    {
        self.node == other.node && self.name == other.name && self.io == other.io
    }
}

impl Eq for PortRef {

}

impl vstd::std_specs::cmp::PartialEqSpecImpl for PortRef {
    open spec fn obeys_eq_spec() -> bool {
        true
    }

    open spec fn eq_spec(&self, other: &PortRef) -> bool {
        self.same(*other)
    }
}

/// The types of ports that can be wired together. `compatible(from, to)`
/// says whether a value of the source port's type can safely feed the
/// destination port.
pub trait PortCompat: Sized {
    spec fn compatible(&self, to: &Self) -> bool;

    fn can_connect(&self, to: &Self) -> (r: bool)
        ensures
            r == self.compatible(to),
    ;
}

/// Ports that carry no type information accept each other.
impl PortCompat for () {
    open spec fn compatible(&self, to: &Self) -> bool {
        true
    }

    fn can_connect(&self, to: &Self) -> (r: bool) {
        true
    }
}

/// The element type of a scalar or of an array.
#[derive(Clone, Copy, Debug, PartialEq, Eq, Structural, Hash)]
pub enum ElemKind {
    Integer,
    Real,
    Complex,
}

/// The shape of the values that a port carries: a scalar, an
/// n-dimensional array of a given rank, or an opaque handle that only
/// script-backed nodes produce and consume.
#[derive(Clone, Copy, Debug, PartialEq, Eq, Structural, Hash)]
pub enum PortKind {
    Scalar(ElemKind),
    Array(ElemKind, u32),
    Opaque,
}

impl PortKind {
    /// The connection rule: equal element types throughout; a scalar feeds a
    /// scalar or a one-dimensional array slot (as a single element); an
    /// array feeds an array of the same rank; an opaque handle feeds only an
    /// opaque port.
    pub open spec fn accepts(from: PortKind, to: PortKind) -> bool {
        match (from, to) {
            (PortKind::Scalar(a), PortKind::Scalar(b)) => a == b,
            (PortKind::Scalar(a), PortKind::Array(b, rank)) => a == b && rank == 1,
            (PortKind::Array(a, r), PortKind::Array(b, s)) => a == b && r == s,
            (PortKind::Opaque, PortKind::Opaque) => true,
            _ => false,
        }
    }
}

impl PortCompat for PortKind {
    open spec fn compatible(&self, to: &Self) -> bool {
        PortKind::accepts(*self, *to)
    }

    fn can_connect(&self, to: &Self) -> (r: bool) {
        match (*self, *to) {
            (PortKind::Scalar(a), PortKind::Scalar(b)) => a == b,
            (PortKind::Scalar(a), PortKind::Array(b, rank)) => a == b && rank == 1,
            (PortKind::Array(a, r), PortKind::Array(b, s)) => a == b && r == s,
            (PortKind::Opaque, PortKind::Opaque) => true,
            _ => false,
        }
    }
}

} // verus!
