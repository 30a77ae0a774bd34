//! Handles: the only way anything outside the heap names an object.
use vstd::prelude::*;

verus! {

#[derive(Debug, Clone, Copy, PartialEq, Eq, Structural, Hash)]
pub struct StrRef(pub(crate) u32);

impl StrRef {
    pub open(crate) spec fn id(self) -> u32 {
        self.0
    }

    pub fn index(self) -> (index: u32)
        ensures
            index == self.id(),
    {
        self.0
    }
}

#[derive(Debug, Clone, Copy, PartialEq, Eq, Structural, Hash)]
pub struct TableRef(pub(crate) u32);

impl TableRef {
    pub open(crate) spec fn id(self) -> u32 {
        self.0
    }

    pub fn index(self) -> (index: u32)
        ensures
            index == self.id(),
    {
        self.0
    }
}

#[derive(Debug, Clone, Copy, PartialEq, Eq, Structural, Hash)]
pub struct FuncRef(pub(crate) u32);

impl FuncRef {
    pub open(crate) spec fn id(self) -> u32 {
        self.0
    }

    /// The handle of function `index`. Functions are kept by the host that runs them, which
    /// numbers them itself.
    pub fn from_index(index: u32) -> (handle: FuncRef)
        ensures
            handle.id() == index,
    {
        FuncRef(index)
    }

    pub fn index(self) -> (index: u32)
        ensures
            index == self.id(),
    {
        self.0
    }
}

#[derive(Debug, Clone, Copy, PartialEq, Eq, Structural, Hash)]
pub struct ProtoRef(pub(crate) u32);

#[derive(Debug, Clone, Copy, PartialEq, Eq, Structural, Hash)]
pub struct UserDataRef(pub(crate) u32);

impl UserDataRef {
    pub open(crate) spec fn id(self) -> u32 {
        self.0
    }

    pub fn index(self) -> (index: u32)
        ensures
            index == self.id(),
    {
        self.0
    }
}

#[derive(Debug, Clone, Copy, PartialEq, Eq, Structural, Hash)]
pub struct ThreadRef(pub(crate) u32);

impl ThreadRef {
    pub open(crate) spec fn id(self) -> u32 {
        self.0
    }

    pub fn index(self) -> (index: u32)
        ensures
            index == self.id(),
    {
        self.0
    }
}

#[derive(Debug, Clone, Copy, PartialEq, Eq, Structural, Hash)]
pub struct UpvalRef(pub(crate) u32);

impl UpvalRef {
    pub open(crate) spec fn id(self) -> u32 {
        self.0
    }

    pub fn index(self) -> (index: u32)
        ensures
            index == self.id(),
    {
        self.0
    }

    /// The handle of upvalue cell `index`. Cells are kept by the host that runs closures, which
    /// numbers them itself.
    pub fn from_index(index: u32) -> (handle: UpvalRef)
        ensures
            handle.id() == index,
    {
        UpvalRef(index)
    }
}

} // verus!
