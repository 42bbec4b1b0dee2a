//! Items, stacks, recipes and the player inventory.

use vstd::prelude::*;

use crate::equipment::EquipmentKind;

verus! {

/// A skill or material category an item can belong to.
#[derive(Clone, Copy, Debug, PartialEq, Eq, Structural, Hash)]
pub enum Tag {
    Mining,
    Smelting,
    Weaponsmithing,
    Alchemy,
    Copper,
}

/// The kinds of stackable items.
#[derive(Clone, Copy, Debug, PartialEq, Eq, Structural, Hash)]
pub enum ItemKind {
    CopperOre,
    CopperIngot,
    FireDamageReagent,
}

impl ItemKind {
    /// The categories this kind belongs to.
    pub fn tags(&self) -> (r: Vec<Tag>)
        ensures
            r@ =~= self.spec_tags(),
    {
        let mut v: Vec<Tag> = Vec::new();
        match self {
            ItemKind::CopperOre => {
                v.push(Tag::Mining);
                v.push(Tag::Copper);
            },
            ItemKind::CopperIngot => {
                v.push(Tag::Smelting);
                v.push(Tag::Copper);
            },
            ItemKind::FireDamageReagent => {
                v.push(Tag::Alchemy);
            },
        }
        v
    }

    /// The categories this kind belongs to.
    pub open spec fn spec_tags(&self) -> Seq<Tag> {
        match self {
            ItemKind::CopperOre => seq![Tag::Mining, Tag::Copper],
            ItemKind::CopperIngot => seq![Tag::Smelting, Tag::Copper],
            ItemKind::FireDamageReagent => seq![Tag::Alchemy],
        }
    }

    /// The kind's display name.
    pub fn name(&self) -> (r: &'static str)
        ensures
            self is CopperOre ==> r@ == "Copper Ore"@,
            self is CopperIngot ==> r@ == "Copper Ingot"@,
            self is FireDamageReagent ==> r@ == "Fire Damage Reagent"@,
    {
        match self {
            ItemKind::CopperOre => "Copper Ore",
            ItemKind::CopperIngot => "Copper Ingot",
            ItemKind::FireDamageReagent => "Fire Damage Reagent",
        }
    }
}

/// Item quality, from common to legendary.
#[derive(Clone, Copy, Debug, PartialEq, Eq, Structural, Hash)]
pub enum Rarity {
    Common,
    Uncommon,
    Rare,
    Epic,
    Legendary,
}

impl Rarity {
    /// The next rarity up; legendary caps out at itself.
    pub fn next(&self) -> (r: Self)
        ensures
            r == match self {
                Rarity::Common => Rarity::Uncommon,
                Rarity::Uncommon => Rarity::Rare,
                Rarity::Rare => Rarity::Epic,
                Rarity::Epic => Rarity::Legendary,
                Rarity::Legendary => Rarity::Legendary,
            },
    {
        match self {
            Rarity::Common => Rarity::Uncommon,
            Rarity::Uncommon => Rarity::Rare,
            Rarity::Rare => Rarity::Epic,
            Rarity::Epic => Rarity::Legendary,
            Rarity::Legendary => Rarity::Legendary,
        }
    }

    /// The rarity's rank, from 0 for common to 4 for legendary.
    pub fn index(&self) -> (r: usize)
        ensures
            r == self.spec_index(),
    {
        match self {
            Rarity::Common => 0,
            Rarity::Uncommon => 1,
            Rarity::Rare => 2,
            Rarity::Epic => 3,
            Rarity::Legendary => 4,
        }
    }

    /// The rarity's rank.
    pub open spec fn spec_index(&self) -> int {
        match self {
            Rarity::Common => 0,
            Rarity::Uncommon => 1,
            Rarity::Rare => 2,
            Rarity::Epic => 3,
            Rarity::Legendary => 4,
        }
    }
}

/// One item: a kind at a rarity.
#[derive(Clone, Copy, Debug, PartialEq, Eq, Structural, Hash)]
pub struct Item {
    pub kind: ItemKind,
    pub rarity: Rarity,
}

/// A quantity of one item.
#[derive(Clone, Copy, Debug, PartialEq, Eq, Structural)]
pub struct ItemStack {
    pub item: Item,
    pub quantity: usize,
}

/// What a recipe produces: a stackable item or a piece of equipment.
#[derive(Clone, Copy, Debug, PartialEq, Eq, Structural, Hash)]
pub enum RecipeOutput {
    Item(ItemKind),
    Equipment(EquipmentKind),
}

impl RecipeOutput {
    /// The categories the produced thing belongs to.
    pub fn tags(&self) -> (r: Vec<Tag>)
        ensures
            r@ =~= self.spec_tags(),
    {
        match self {
            RecipeOutput::Item(item) => item.tags(),
            RecipeOutput::Equipment(equipment) => equipment.tags(),
        }
    }

    /// The categories the produced thing belongs to.
    pub open spec fn spec_tags(&self) -> Seq<Tag> {
        match self {
            RecipeOutput::Item(item) => item.spec_tags(),
            RecipeOutput::Equipment(equipment) => equipment.spec_tags(),
        }
    }
}

/// The quantity held by the first stack of `item` in `inv`, or 0 when none
/// holds it.
pub open spec fn stack_count(inv: Seq<ItemStack>, item: Item) -> int
    decreases inv.len(),
{
    if inv.len() == 0 {
        0
    } else if inv[0].item == item {
        inv[0].quantity as int
    } else {
        stack_count(inv.skip(1), item)
    }
}

/// A crafting recipe: the required input quantities per kind, and the
/// output.
#[derive(Clone, Debug)]
pub struct Recipe {
    pub inputs: Vec<(ItemKind, usize)>,
    pub output: RecipeOutput,
}

impl Recipe {
    /// Whether each required input, at its position's requested rarity, is
    /// present in `inventory` in sufficient quantity.  Inputs beyond the
    /// end of `rarities` are not checked.
    pub fn craftable(&self, inventory: &Vec<ItemStack>, rarities: &Vec<Rarity>) -> (r: bool)
        ensures
            r <==> forall|k: int|
                0 <= k < vstd::math::min(self.inputs@.len() as int, rarities@.len() as int)
                    ==> (#[trigger] self.inputs@[k]).1 <= stack_count(
                    inventory@,
                    Item { kind: self.inputs@[k].0, rarity: rarities@[k] },
                ),
    {
        let n = if self.inputs.len() < rarities.len() {
            self.inputs.len()
        } else {
            rarities.len()
        };
        for k in 0..n
            invariant
                n == vstd::math::min(self.inputs@.len() as int, rarities@.len() as int),
                forall|j: int|
                    0 <= j < k ==> (#[trigger] self.inputs@[j]).1 <= stack_count(
                        inventory@,
                        Item { kind: self.inputs@[j].0, rarity: rarities@[j] },
                    ),
        {
            let want = Item { kind: self.inputs[k].0, rarity: rarities[k] };
            let have = first_stack_count(inventory, want);
            if self.inputs[k].1 > have {
                return false;
            }
        }
        true
    }
}

/// The quantity held by the first stack of `item`, or 0 when none holds
/// it.
fn first_stack_count(inventory: &Vec<ItemStack>, item: Item) -> (r: usize)
    ensures
        r == stack_count(inventory@, item),
{
    let n = inventory.len();
    proof {
        assert(inventory@.skip(0) =~= inventory@);
    }
    for i in 0..n
        invariant
            n == inventory@.len(),
            stack_count(inventory@, item) == stack_count(inventory@.skip(i as int), item),
            forall|j: int| 0 <= j < i ==> (#[trigger] inventory@[j]).item != item,
    {
        proof {
            assert(inventory@.skip(i as int)[0] == inventory@[i as int]);
            assert(inventory@.skip(i as int).skip(1) =~= inventory@.skip(i + 1));
        }
        if inventory[i].item == item {
            return inventory[i].quantity;
        }
    }
    proof {
        assert(inventory@.skip(n as int).len() == 0);
    }
    0
}

/// The quantity stored for `item`, if any entry holds it.
pub open spec fn inv_count(s: Seq<(Item, usize)>, item: Item) -> Option<int> {
    if exists|i: int| 0 <= i < s.len() && s[i].0 == item {
        Some(s[choose|i: int| 0 <= i < s.len() && s[i].0 == item].1 as int)
    } else {
        None
    }
}

/// The player inventory: a quantity per item, at most one entry per item.
#[derive(Debug)]
pub struct Inventory(pub Vec<(Item, usize)>);

impl Inventory {
    /// At most one entry per item.
    pub open spec fn wf(&self) -> bool {
        forall|i: int, j: int| 0 <= i < j < self.0@.len() ==> self.0@[i].0 != self.0@[j].0
    }

    /// The index of the entry holding `item`, if any.
    fn index_of(&self, item: Item) -> (r: Option<usize>)
        ensures
            r matches Some(i) ==> i < self.0@.len() && self.0@[i as int].0 == item,
            r is None ==> forall|j: int| 0 <= j < self.0@.len() ==> (#[trigger] self.0@[j]).0
                != item,
            r is None <==> inv_count(self.0@, item) is None,
    {
        let n = self.0.len();
        for i in 0..n
            invariant
                n == self.0@.len(),
                forall|j: int| 0 <= j < i ==> (#[trigger] self.0@[j]).0 != item,
        {
            if self.0[i].0 == item {
                return Some(i);
            }
        }
        None
    }

    /// Adds a stack: the item's stored quantity grows by the stack's
    /// quantity, from zero if the item was absent.
    pub fn add(&mut self, stack: ItemStack)
        requires
            old(self).wf(),
            (match inv_count(old(self).0@, stack.item) {
                Option::Some(q) => q,
                Option::None => 0,
            }) + stack.quantity <= usize::MAX,
        ensures
            final(self).wf(),
            inv_count(final(self).0@, stack.item) == Some(
                (match inv_count(old(self).0@, stack.item) {
                    Option::Some(q) => q,
                    Option::None => 0,
                }) + stack.quantity,
            ),
            forall|other: Item|
                other != stack.item ==> #[trigger] inv_count(final(self).0@, other) == inv_count(
                    old(self).0@,
                    other,
                ),
    {
        let ghost s0 = self.0@;
        let found = self.index_of(stack.item);
        match found {
            Some(i) => {
                proof {
                    lemma_inv_at(s0, stack.item, i as int);
                }
                let q = self.0[i].1;
                let slot = crate::idx_mut(&mut self.0, i);
                *slot = (stack.item, q + stack.quantity);
                proof {
                    assert(self.0@[i as int] == (stack.item, (q + stack.quantity) as usize));
                    lemma_inv_points(s0, self.0@, stack.item, i as int);
                }
            },
            None => {
                self.0.push((stack.item, stack.quantity));
                proof {
                    let n2 = s0.len() as int;
                    assert(self.0@[n2] == (stack.item, stack.quantity));
                    lemma_inv_points(s0, self.0@, stack.item, n2);
                }
            },
        }
    }

    /// Removes a stack; reports whether the item was present.  Removing
    /// exactly the stored quantity drops the entry; removing less leaves
    /// the difference.
    pub fn remove(&mut self, stack: ItemStack) -> (r: bool)
        requires
            old(self).wf(),
            inv_count(old(self).0@, stack.item) matches Some(q) ==> stack.quantity <= q,
        ensures
            final(self).wf(),
            r <==> inv_count(old(self).0@, stack.item) is Some,
            !r ==> *final(self) == *old(self),
            r ==> inv_count(final(self).0@, stack.item) == (if inv_count(
                old(self).0@,
                stack.item,
            ) == Some(stack.quantity as int) {
                None::<int>
            } else {
                Some(
                    (match inv_count(old(self).0@, stack.item) {
                        Option::Some(q) => q,
                        Option::None => 0,
                    }) - stack.quantity,
                )
            }),
            forall|other: Item|
                other != stack.item ==> #[trigger] inv_count(final(self).0@, other) == inv_count(
                    old(self).0@,
                    other,
                ),
    {
        let ghost s0 = self.0@;
        let found = self.index_of(stack.item);
        match found {
            Some(i) => {
                proof {
                    lemma_inv_at(s0, stack.item, i as int);
                }
                let q = self.0[i].1;
                if q == stack.quantity {
                    let _ = self.0.remove(i);
                    proof {
                        lemma_inv_gone(s0, self.0@, stack.item, i as int);
                    }
                } else {
                    let slot = crate::idx_mut(&mut self.0, i);
                    *slot = (stack.item, q - stack.quantity);
                    proof {
                        assert(self.0@[i as int] == (stack.item, (q - stack.quantity) as usize));
                        lemma_inv_points(s0, self.0@, stack.item, i as int);
                    }
                }
                true
            },
            None => false,
        }
    }

    /// The stored quantity of `item`, or `None` if absent.
    pub fn get(&self, item: Item) -> (r: Option<usize>)
        requires
            self.wf(),
        ensures
            r is Some <==> inv_count(self.0@, item) is Some,
            r matches Some(q) ==> inv_count(self.0@, item) == Some(q as int),
    {
        match self.index_of(item) {
            Some(i) => {
                proof {
                    lemma_inv_at(self.0@, item, i as int);
                }
                Some(self.0[i].1)
            },
            None => None,
        }
    }

    /// Sets the stored quantity of a stack's item outright; a zero
    /// quantity drops the entry.
    pub fn set(&mut self, stack: ItemStack)
        requires
            old(self).wf(),
        ensures
            final(self).wf(),
            inv_count(final(self).0@, stack.item) == (if stack.quantity == 0 {
                None::<int>
            } else {
                Some(stack.quantity as int)
            }),
            forall|other: Item|
                other != stack.item ==> #[trigger] inv_count(final(self).0@, other) == inv_count(
                    old(self).0@,
                    other,
                ),
    {
        let ghost s0 = self.0@;
        let found = self.index_of(stack.item);
        if stack.quantity == 0 {
            match found {
                Some(i) => {
                    proof {
                        lemma_inv_at(s0, stack.item, i as int);
                    }
                    let _ = self.0.remove(i);
                    proof {
                        lemma_inv_gone(s0, self.0@, stack.item, i as int);
                    }
                },
                None => {},
            }
        } else {
            match found {
                Some(i) => {
                    let slot = crate::idx_mut(&mut self.0, i);
                    *slot = (stack.item, stack.quantity);
                    proof {
                        assert(self.0@[i as int] == (stack.item, stack.quantity));
                        lemma_inv_points(s0, self.0@, stack.item, i as int);
                    }
                },
                None => {
                    self.0.push((stack.item, stack.quantity));
                    proof {
                        let n2 = s0.len() as int;
                        assert(self.0@[n2] == (stack.item, stack.quantity));
                        lemma_inv_points(s0, self.0@, stack.item, n2);
                    }
                },
            }
        }
    }

    /// All stored stacks, one per item, in storage order.
    pub fn items(&self) -> (r: Vec<ItemStack>)
        ensures
            r@.len() == self.0@.len(),
            forall|i: int|
                0 <= i < r@.len() ==> #[trigger] r@[i] == (ItemStack {
                    item: self.0@[i].0,
                    quantity: self.0@[i].1,
                }),
    {
        let mut out: Vec<ItemStack> = Vec::new();
        let n = self.0.len();
        for i in 0..n
            invariant
                n == self.0@.len(),
                out@.len() == i,
                forall|j: int|
                    0 <= j < i ==> #[trigger] out@[j] == (ItemStack {
                        item: self.0@[j].0,
                        quantity: self.0@[j].1,
                    }),
        {
            out.push(ItemStack { item: self.0[i].0, quantity: self.0[i].1 });
        }
        out
    }
}

impl Default for Inventory {
    /// A fresh inventory holds nothing.
    fn default() -> (r: Self)
        ensures
            r.wf(),
            r.0@.len() == 0,
    {
        Inventory(Vec::new())
    }
}

/// When entries are distinct and entry `i` holds `item`, `inv_count` reads
/// entry `i`.
proof fn lemma_inv_at(s: Seq<(Item, usize)>, item: Item, i: int)
    requires
        forall|a: int, b: int| 0 <= a < b < s.len() ==> s[a].0 != s[b].0,
        0 <= i < s.len(),
        s[i].0 == item,
    ensures
        inv_count(s, item) == Some(s[i].1 as int),
{
    let j = choose|j: int| 0 <= j < s.len() && s[j].0 == item;
    assert(0 <= j < s.len() && s[j].0 == item);
    if j != i {
        if j < i {
            assert(s[j].0 != s[i].0);
        } else {
            assert(s[i].0 != s[j].0);
        }
        assert(false);
    }
}

/// Writing `item` into entry `i` (or appending it as a fresh entry)
/// changes `item`'s count and no other.
proof fn lemma_inv_points(s0: Seq<(Item, usize)>, s1: Seq<(Item, usize)>, item: Item, i: int)
    requires
        forall|a: int, b: int| 0 <= a < b < s0.len() ==> s0[a].0 != s0[b].0,
        0 <= i < s1.len(),
        s1.len() == s0.len() || (s1.len() == s0.len() + 1 && i == s0.len()),
        s1[i].0 == item,
        i < s0.len() ==> s0[i].0 == item,
        forall|j: int| 0 <= j < s0.len() && j != i ==> #[trigger] s1[j] == s0[j],
        i == s0.len() ==> forall|j: int| 0 <= j < s0.len() ==> (#[trigger] s0[j]).0 != item,
    ensures
        forall|a: int, b: int| 0 <= a < b < s1.len() ==> s1[a].0 != s1[b].0,
        inv_count(s1, item) == Some(s1[i].1 as int),
        forall|other: Item| other != item ==> #[trigger] inv_count(s1, other) == inv_count(s0, other),
{
    assert forall|j: int| 0 <= j < s0.len() && j != i implies s0[j].0 != item by {
        if i < s0.len() {
            if j < i {
                assert(s0[j].0 != s0[i].0);
            } else {
                assert(s0[i].0 != s0[j].0);
            }
        }
    }
    assert forall|a: int, b: int| 0 <= a < b < s1.len() implies s1[a].0 != s1[b].0 by {
        if a != i && b != i {
            assert(s1[a] == s0[a]);
            assert(s1[b] == s0[b]);
        } else if a == i {
            assert(s1[b] == s0[b]);
        } else {
            assert(s1[a] == s0[a]);
        }
    }
    lemma_inv_at(s1, item, i);
    assert forall|other: Item| other != item implies #[trigger] inv_count(s1, other) == inv_count(
        s0,
        other,
    ) by {
        if exists|j: int| 0 <= j < s0.len() && s0[j].0 == other {
            let j = choose|j: int| 0 <= j < s0.len() && s0[j].0 == other;
            assert(j != i);
            assert(s1[j] == s0[j]);
            lemma_inv_at(s1, other, j);
            lemma_inv_at(s0, other, j);
        } else {
            assert forall|j: int| 0 <= j < s1.len() implies (#[trigger] s1[j]).0 != other by {
                if j != i {
                    assert(s1[j] == s0[j]);
                }
            }
            assert(inv_count(s1, other) is None);
        }
    }
}

/// Removing entry `i`, which held `item`, clears `item`'s count and leaves
/// every other item's count unchanged.
proof fn lemma_inv_gone(s0: Seq<(Item, usize)>, s1: Seq<(Item, usize)>, item: Item, i: int)
    requires
        forall|a: int, b: int| 0 <= a < b < s0.len() ==> s0[a].0 != s0[b].0,
        0 <= i < s0.len(),
        s0[i].0 == item,
        s1 == s0.remove(i),
    ensures
        forall|a: int, b: int| 0 <= a < b < s1.len() ==> s1[a].0 != s1[b].0,
        inv_count(s1, item) is None,
        forall|other: Item| other != item ==> #[trigger] inv_count(s1, other) == inv_count(s0, other),
{
    assert forall|j: int| 0 <= j < s1.len() implies (#[trigger] s1[j]).0 != item by {
        let j0 = if j < i {
            j
        } else {
            j + 1
        };
        assert(s1[j] == s0[j0]);
        if j0 < i {
            assert(s0[j0].0 != s0[i].0);
        } else {
            assert(s0[i].0 != s0[j0].0);
        }
    }
    assert forall|a: int, b: int| 0 <= a < b < s1.len() implies s1[a].0 != s1[b].0 by {
        let a0 = if a < i {
            a
        } else {
            a + 1
        };
        let b0 = if b < i {
            b
        } else {
            b + 1
        };
        assert(s1[a] == s0[a0]);
        assert(s1[b] == s0[b0]);
    }
    assert(inv_count(s1, item) is None);
    assert forall|other: Item| other != item implies #[trigger] inv_count(s1, other) == inv_count(
        s0,
        other,
    ) by {
        if exists|j: int| 0 <= j < s0.len() && s0[j].0 == other {
            let j = choose|j: int| 0 <= j < s0.len() && s0[j].0 == other;
            assert(j != i);
            let j2 = if j < i {
                j
            } else {
                j - 1
            };
            assert(s1[j2] == s0[j]);
            lemma_inv_at(s1, other, j2);
            lemma_inv_at(s0, other, j);
        } else {
            assert forall|j: int| 0 <= j < s1.len() implies (#[trigger] s1[j]).0 != other by {
                let j0 = if j < i {
                    j
                } else {
                    j + 1
                };
                assert(s1[j] == s0[j0]);
            }
        }
    }
}

} // verus!
