//! Equipment kinds and the set of equipped pieces.

use vstd::prelude::*;

use crate::item::Tag;

verus! {

/// The kinds of craftable equipment.
#[derive(Clone, Copy, Debug, PartialEq, Eq, Structural, Hash)]
pub enum EquipmentKind {
    CopperSword,
}

impl EquipmentKind {
    /// The categories this kind belongs to.
    pub fn tags(&self) -> (r: Vec<Tag>)
        ensures
            r@ =~= self.spec_tags(),
    {
        let mut v: Vec<Tag> = Vec::new();
        match self {
            EquipmentKind::CopperSword => {
                v.push(Tag::Weaponsmithing);
                v.push(Tag::Copper);
            },
        }
        v
    }

    /// The categories this kind belongs to.
    pub open spec fn spec_tags(&self) -> Seq<Tag> {
        match self {
            EquipmentKind::CopperSword => seq![Tag::Weaponsmithing, Tag::Copper],
        }
    }

    /// The kind's display name.
    pub fn name(&self) -> (r: &'static str)
        ensures
            self is CopperSword ==> r@ == "Copper Sword"@,
    {
        match self {
            EquipmentKind::CopperSword => "Copper Sword",
        }
    }
}

/// A stable handle to one piece of equipment.
#[derive(Clone, Copy, Debug, PartialEq, Eq, Structural, Hash)]
pub struct EquipmentId(pub u64);

/// The pieces currently worn, one optional slot per location.
#[derive(Clone, Copy, Debug)]
pub struct Equipped {
    pub weapon: Option<EquipmentId>,
}

impl Equipped {
    /// The handles of every worn piece, in slot order.
    pub fn equipment(&self) -> (r: Vec<EquipmentId>)
        ensures
            r@ =~= match self.weapon {
                Option::Some(w) => seq![w],
                Option::None => Seq::<EquipmentId>::empty(),
            },
    {
        let mut v: Vec<EquipmentId> = Vec::new();
        match self.weapon {
            Some(w) => {
                v.push(w);
            },
            None => {},
        }
        v
    }
}

impl Default for Equipped {
    /// Nothing is worn at first.
    fn default() -> (r: Self)
        ensures
            r.weapon is None,
    {
        Equipped { weapon: None }
    }
}

} // verus!
