use tecs::combat::{Attackable, AttackOutcome, AttackType, CombatDefensive, CombatOffensive};
use tecs::data::recipes;
use tecs::equipment::{EquipmentId, EquipmentKind, Equipped};
use tecs::item::{Inventory, Item, ItemKind, ItemStack, Rarity, RecipeOutput, Tag};
use tecs::protocol::Tick;
use tecs::task::{Query, Statistic, Statistics};
use tecs::utils::{Clock, Timer};
use tecs::value::Value;

fn copper_ore() -> Item {
    Item { kind: ItemKind::CopperOre, rarity: Rarity::Common }
}

#[test]
fn item_kind_tags() {
    assert_eq!(vec![Tag::Mining, Tag::Copper], ItemKind::CopperOre.tags());
    assert_eq!(vec![Tag::Smelting, Tag::Copper], ItemKind::CopperIngot.tags());
    assert_eq!(vec![Tag::Alchemy], ItemKind::FireDamageReagent.tags());
    assert_eq!("Copper Ore", ItemKind::CopperOre.name());
}

#[test]
fn rarity_next_and_index() {
    assert_eq!(Rarity::Uncommon, Rarity::Common.next());
    assert_eq!(Rarity::Legendary, Rarity::Legendary.next());
    assert_eq!(0, Rarity::Common.index());
    assert_eq!(4, Rarity::Legendary.index());
}

#[test]
fn recipe_output_tags() {
    assert_eq!(
        vec![Tag::Weaponsmithing, Tag::Copper],
        RecipeOutput::Equipment(EquipmentKind::CopperSword).tags()
    );
    assert_eq!(vec![Tag::Mining, Tag::Copper], RecipeOutput::Item(ItemKind::CopperOre).tags());
}

#[test]
fn recipes_list_matches_game_data() {
    let rs = recipes();
    assert_eq!(3, rs.len());
    assert_eq!(vec![(ItemKind::CopperOre, 2)], rs[0].inputs);
    assert_eq!(RecipeOutput::Item(ItemKind::CopperIngot), rs[0].output);
    assert_eq!(RecipeOutput::Equipment(EquipmentKind::CopperSword), rs[1].output);
    assert_eq!(RecipeOutput::Item(ItemKind::FireDamageReagent), rs[2].output);
}

#[test]
fn craftable_checks_quantities_at_requested_rarity() {
    let rs = recipes();
    let smelt = &rs[0];
    let stock = vec![ItemStack { item: copper_ore(), quantity: 2 }];
    assert!(smelt.craftable(&stock, &vec![Rarity::Common]));
    assert!(!smelt.craftable(&stock, &vec![Rarity::Rare]));
    let low = vec![ItemStack { item: copper_ore(), quantity: 1 }];
    assert!(!smelt.craftable(&low, &vec![Rarity::Common]));
}

#[test]
fn inventory_add_remove_get_set() {
    let mut inv = Inventory::default();
    inv.add(ItemStack { item: copper_ore(), quantity: 3 });
    inv.add(ItemStack { item: copper_ore(), quantity: 2 });
    assert_eq!(Some(5), inv.get(copper_ore()));

    assert!(inv.remove(ItemStack { item: copper_ore(), quantity: 2 }));
    assert_eq!(Some(3), inv.get(copper_ore()));
    assert!(inv.remove(ItemStack { item: copper_ore(), quantity: 3 }));
    assert_eq!(None, inv.get(copper_ore()));
    assert!(!inv.remove(ItemStack { item: copper_ore(), quantity: 1 }));

    inv.set(ItemStack { item: copper_ore(), quantity: 7 });
    assert_eq!(Some(7), inv.get(copper_ore()));
    inv.set(ItemStack { item: copper_ore(), quantity: 0 });
    assert_eq!(None, inv.get(copper_ore()));

    inv.add(ItemStack { item: copper_ore(), quantity: 1 });
    let items = inv.items();
    assert_eq!(vec![ItemStack { item: copper_ore(), quantity: 1 }], items);
}

#[test]
fn equipped_lists_worn_pieces() {
    let mut equipped = Equipped::default();
    assert!(equipped.equipment().is_empty());
    equipped.weapon = Some(EquipmentId(11));
    assert_eq!(vec![EquipmentId(11)], equipped.equipment());
}

#[test]
fn tick_increments() {
    let mut tick = Tick(41);
    tick.inc();
    assert_eq!(Tick(42), tick);
}

#[test]
fn timer_reports_done_after_duration() {
    let mut timer = Timer::new(100);
    assert!(timer.done(0));
    timer.start(1000);
    assert!(!timer.done(1000));
    assert!(!timer.done(1100));
    assert!(timer.done(1101));
    assert!(!timer.done(500));
}

#[test]
fn clock_tracks_deltas() {
    let mut clock = Clock::new(1000);
    clock.tick(1016);
    assert_eq!(16, clock.delta);
    assert_eq!(1000, clock.start);
    clock.tick(1000);
    assert_eq!(0, clock.delta);
    let values = clock.to_values();
    let back = Clock::from_values(&values).expect("a clock row holds three naturals");
    assert_eq!(clock.delta, back.delta);
    assert_eq!(clock.start, back.start);
    assert_eq!(clock.last, back.last);
    assert!(Clock::from_values(&vec![Value::Bool(true)]).is_none());
}

#[test]
fn statistics_tally_by_tags() {
    let stats = Statistics(vec![
        (Statistic::Gathered(ItemKind::CopperOre), 10),
        (Statistic::Crafted(RecipeOutput::Item(ItemKind::CopperIngot)), 4),
        (Statistic::Crafted(RecipeOutput::Equipment(EquipmentKind::CopperSword)), 1),
    ]);
    let copper = Query { tags: vec![Tag::Copper] };
    assert_eq!(15, stats.with_tags(&copper));
    let smithing = Query { tags: vec![Tag::Weaponsmithing] };
    assert_eq!(1, stats.with_tags(&smithing));
    let mining = Query { tags: vec![Tag::Mining, Tag::Copper] };
    assert_eq!(10, stats.with_tags(&mining));
}

fn flat_attack(damage: u32, penetration: u32) -> AttackType {
    AttackType { damage, penetration }
}

#[test]
fn receive_attack_scales_damage_through_resistance() {
    let source = CombatOffensive {
        fire: flat_attack(200, 0),
        earth: flat_attack(100, 50),
        lightning: flat_attack(0, 0),
        air: flat_attack(0, 0),
        nature: flat_attack(50, 10),
        true_damage: 30,
    };
    let mut target = CombatDefensive {
        health: 500,
        max_health: 500,
        fire_resistance: 100,
        earth_resistance: 50,
        lightning_resistance: 0,
        air_resistance: 0,
        nature_resistance: 5,
        };
    let outcome = target.receive_attack(&source);
    // fire: 200*100/(100+100) = 100; earth: penetration matches resistance,
    // 100*100/100 = 100; nature: penetration exceeds resistance, full 50.
    assert_eq!(100, outcome.fire_damage);
    assert_eq!(100, outcome.earth_damage);
    assert_eq!(0, outcome.lightning_damage);
    assert_eq!(50, outcome.nature_damage);
    assert_eq!(30, outcome.true_damage);
    assert_eq!(280, outcome.sum_damage());
    assert_eq!(220, outcome.post_attack_health);
    assert_eq!(220, target.health);
}

#[test]
fn receive_attack_saturates_health_at_zero() {
    let source = CombatOffensive {
        fire: flat_attack(0, 0),
        earth: flat_attack(0, 0),
        lightning: flat_attack(0, 0),
        air: flat_attack(0, 0),
        nature: flat_attack(0, 0),
        true_damage: 1000,
    };
    let mut target = CombatDefensive {
        health: 10,
        max_health: 10,
        fire_resistance: 0,
        earth_resistance: 0,
        lightning_resistance: 0,
        air_resistance: 0,
        nature_resistance: 0,
    };
    let outcome = target.receive_attack(&source);
    assert_eq!(0, outcome.post_attack_health);
    assert_eq!(0, target.health);
    let expected = AttackOutcome {
        fire_damage: 0,
        earth_damage: 0,
        lightning_damage: 0,
        air_damage: 0,
        nature_damage: 0,
        true_damage: 1000,
        post_attack_health: 0,
    };
    assert_eq!(expected, outcome);
}
