//! The kinds of items that a material can be found as.

use vstd::prelude::*;

verus! {

#[derive(Copy, Clone, Debug, PartialEq, Eq, Structural)]
pub enum ItemType {
    Block,
    Weapon,
    Armor,
    Shoes,
    Headwear,
    Clothing,
    DiggingTool,
}

} // verus!
