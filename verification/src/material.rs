//! What the world is made of.

use vstd::prelude::*;
use crate::colors::Color;
use crate::items::ItemType;

verus! {

/// How a stone came to be.
#[derive(Copy, Clone, Debug, PartialEq, Eq, Structural)]
pub enum StoneType {
    Sedimentary,
    IgneousExtrusive,
    IgneousIntrusive,
    Metamorphic,
}

/// What is known of a stone.
#[derive(Clone, Debug)]
pub struct StoneInfo {
    pub stone_type: StoneType,
    /// The names of the materials that this one is found next to. A stone
    /// with an empty list is found anywhere.
    pub found_near: Vec<String>,
}

#[derive(Clone, Debug)]
pub enum MaterialClass {
    Stone(StoneInfo),
    Metal,
    Flesh,
    Bone,
    Other,
}

/// A material of the catalogue. The physical quantities that the game shows
/// and never computes with are kept by the loader of the catalogue.
#[derive(Clone, Debug)]
pub struct MaterialInfo {
    /// The name, by which the material is known everywhere; no two
    /// materials of a catalogue share one.
    pub name: String,
    pub description: String,
    pub class: MaterialClass,
    /// From nought for the most common to 255 for the rarest.
    pub rarity: u8,
    pub color_bg: Color,
    pub color_fg: Color,
    pub block_glyph: char,
    /// The name of the material that smelting yields.
    pub smelt_result: Option<String>,
    /// The light that the material gives off, in lumens.
    pub emit_light: usize,
    /// The kinds of items that the material occurs as in nature.
    pub occurs_naturally: Option<Vec<ItemType>>,
    pub edible: bool,
}

/// The names that a list of strings holds.
pub open spec fn names_of(list: Seq<String>) -> Seq<Seq<char>> {
    Seq::new(list.len(), |i: int| list[i]@)
}

/// Whether `name` is one of the names.
pub open spec fn has_name(names: Seq<Seq<char>>, name: Seq<char>) -> bool {
    exists|i: int| 0 <= i < names.len() && #[trigger] names[i] == name
}

/// Tests whether `name` is one of the strings of the list.
pub fn contains_name(list: &Vec<String>, name: &String) -> (found: bool)
    ensures
        found == has_name(names_of(list@), name@),
{
    let mut i: usize = 0;
    while i < list.len()
        invariant
            i <= list.len(),
            forall|k: int| 0 <= k < i ==> #[trigger] names_of(list@)[k] != name@,
        decreases list.len() - i,
    {
        if list[i] == *name {
            assert(names_of(list@)[i as int] == name@);
            return true;
        }
        assert(names_of(list@)[i as int] == list@[i as int]@);
        i = i + 1;
    }
    false
}

/// A copy of a list of strings.
pub fn clone_names(list: &Vec<String>) -> (copy: Vec<String>)
    ensures
        names_of(copy@) == names_of(list@),
{
    let mut copy: Vec<String> = Vec::new();
    let mut i: usize = 0;
    while i < list.len()
        invariant
            i <= list.len(),
            copy@.len() == i,
            forall|k: int| 0 <= k < i ==> (#[trigger] copy@[k])@ == list@[k]@,
        decreases list.len() - i,
    {
        copy.push(list[i].clone());
        i = i + 1;
    }
    assert(names_of(copy@) =~= names_of(list@));
    copy
}

impl MaterialInfo {
    /// The names that the material is found next to: those of the list if
    /// it is a stone, nothing otherwise.
    pub open spec fn spec_found_near(&self) -> Option<Seq<Seq<char>>> {
        match self.class {
            MaterialClass::Stone(info) => Some(names_of(info.found_near@)),
            _ => None,
        }
    }

    /// Whether the material occurs in nature as the given kind of item.
    pub open spec fn occurs_as(&self, kind: ItemType) -> bool {
        match self.occurs_naturally {
            Some(kinds) => kinds@.contains(kind),
            None => false,
        }
    }

    /// What the material is known by: its name.
    pub fn id(&self) -> (id: String)
        ensures
            id@ == self.name@,
    {
        self.name.clone()
    }

    /// The names that the material is found next to.
    pub fn found_near(&self) -> (near: Option<Vec<String>>)
        ensures
            match near {
                Some(list) => self.spec_found_near() == Some(names_of(list@)),
                None => self.spec_found_near() is None,
            },
    {
        match &self.class {
            MaterialClass::Stone(stoneinfo) => Some(clone_names(&stoneinfo.found_near)),
            _ => None,
        }
    }

    /// Tests whether the material occurs in nature as the given kind of
    /// item.
    pub fn occurs_naturally_as(&self, kind: ItemType) -> (b: bool)
        ensures
            b == self.occurs_as(kind),
    {
        match &self.occurs_naturally {
            Some(kinds) => contains_kind(kinds, kind),
            None => false,
        }
    }
}

/// Tests whether `kind` is one of the kinds of the list.
pub fn contains_kind(kinds: &Vec<ItemType>, kind: ItemType) -> (found: bool)
    ensures
        found == kinds@.contains(kind),
{
    let mut i: usize = 0;
    while i < kinds.len()
        invariant
            i <= kinds.len(),
            forall|k: int| 0 <= k < i ==> kinds@[k] != kind,
        decreases kinds.len() - i,
    {
        if kinds[i] == kind {
            assert(kinds@[i as int] == kind);
            return true;
        }
        i = i + 1;
    }
    false
}

} // verus!
