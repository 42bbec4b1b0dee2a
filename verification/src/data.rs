//! The game's static crafting data.

use vstd::prelude::*;

use crate::equipment::EquipmentKind;
use crate::item::{ItemKind, Recipe, RecipeOutput};

verus! {

/// The full recipe list: ore smelts to ingots, ingots forge a sword or
/// distil a reagent.
pub fn recipes() -> (r: Vec<Recipe>)
    ensures
        r@.len() == 3,
        r@[0].inputs@ =~= seq![(ItemKind::CopperOre, 2usize)],
        r@[0].output == RecipeOutput::Item(ItemKind::CopperIngot),
        r@[1].inputs@ =~= seq![(ItemKind::CopperIngot, 3usize)],
        r@[1].output == RecipeOutput::Equipment(EquipmentKind::CopperSword),
        r@[2].inputs@ =~= seq![(ItemKind::CopperIngot, 2usize)],
        r@[2].output == RecipeOutput::Item(ItemKind::FireDamageReagent),
{
    let mut out: Vec<Recipe> = Vec::new();
    let mut smelt: Vec<(ItemKind, usize)> = Vec::new();
    smelt.push((ItemKind::CopperOre, 2));
    out.push(Recipe { inputs: smelt, output: RecipeOutput::Item(ItemKind::CopperIngot) });
    let mut forge: Vec<(ItemKind, usize)> = Vec::new();
    forge.push((ItemKind::CopperIngot, 3));
    out.push(Recipe { inputs: forge, output: RecipeOutput::Equipment(EquipmentKind::CopperSword) });
    let mut distil: Vec<(ItemKind, usize)> = Vec::new();
    distil.push((ItemKind::CopperIngot, 2));
    out.push(Recipe { inputs: distil, output: RecipeOutput::Item(ItemKind::FireDamageReagent) });
    out
}

} // verus!
