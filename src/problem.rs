//! A packing problem as a caller states it, and its validation.

use vstd::prelude::*;

use crate::geom::Cuboid;
use crate::Params;

verus! {

/// Why a problem cannot be packed.
#[derive(PartialEq, Eq, Structural, Clone, Copy, Debug)]
pub enum Error {
    /// The problem has no item.
    NoBoxToBePack,
    /// A bin extent is not positive.
    InvalidBinSpec,
}

/// An item, with the index of the group of identical items it came from.
#[derive(PartialEq, Eq, Structural, Clone, Copy, Debug)]
pub struct Item {
    pub width: i32,
    pub depth: i32,
    pub height: i32,
    pub group: usize,
}

impl Item {
    pub fn to_cuboid(&self) -> (r: Cuboid)
        ensures
            r == (Cuboid { width: self.width, depth: self.depth, height: self.height }),
    {
        Cuboid::new(self.width, self.depth, self.height)
    }
}

/// The settings, the bin size and the items of one packing run.
pub struct ProblemSpec {
    pub params: Params,
    pub bin: Cuboid,
    pub items: Vec<Item>,
}

impl ProblemSpec {
    /// Rejects a problem without items, then one whose bin has an extent that is not positive.
    pub fn validate(&self) -> (r: Result<(), Error>)
        ensures
            self.items@.len() == 0 ==> r == Err::<(), Error>(Error::NoBoxToBePack),
            self.items@.len() > 0 && !self.bin.wf() ==> r == Err::<(), Error>(Error::InvalidBinSpec),
            self.items@.len() > 0 && self.bin.wf() ==> r == Ok::<(), Error>(()),
    {
        if self.items.len() == 0 {
            return Err(Error::NoBoxToBePack);
        }
        if self.bin.height <= 0 || self.bin.depth <= 0 || self.bin.width <= 0 {
            return Err(Error::InvalidBinSpec);
        }
        Ok(())
    }
}

} // verus!
