//! Positions and interned names.
use vstd::prelude::*;

verus! {

/// An interned name (class, method or file), identified by its intern number.
pub type Symbol = u64;

/// A source span: the file it lies in and its start and end offsets.
#[derive(Clone, Copy, Debug, PartialEq, Eq, Structural)]
pub struct Pos {
    pub file: Symbol,
    pub start: u64,
    pub end: u64,
}

/// A name together with the position where it occurs.
#[derive(Clone, Copy, Debug, PartialEq, Eq, Structural)]
pub struct PosId {
    pub pos: Pos,
    pub id: Symbol,
}

impl PosId {
    pub fn new(pos: Pos, id: Symbol) -> (r: PosId)
        ensures
            r.pos == pos,
            r.id == id,
    {
        PosId { pos, id }
    }

    pub fn id(&self) -> (r: Symbol)
        ensures
            r == self.id,
    {
        self.id
    }

    pub fn pos(&self) -> (r: Pos)
        ensures
            r == self.pos,
    {
        self.pos
    }
}

} // verus!
