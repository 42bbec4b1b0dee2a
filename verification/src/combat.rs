//! Combat: elemental attacks against resisted defences.
//!
//! Each element's damage is reduced by the defender's resistance in excess
//! of the attack's penetration; true damage is never reduced.  Health
//! saturates at zero rather than underflowing.

use vstd::prelude::*;

verus! {

/// One element's attack: raw damage and how much resistance it ignores.
#[derive(Clone, Copy, Debug, PartialEq, Eq, Structural)]
pub struct AttackType {
    pub damage: u32,
    pub penetration: u32,
}

/// An attacker's offensive profile across the five elements, plus
/// unresistable true damage.
#[derive(Clone, Copy, Debug, PartialEq, Eq, Structural)]
pub struct CombatOffensive {
    pub fire: AttackType,
    pub earth: AttackType,
    pub lightning: AttackType,
    pub air: AttackType,
    pub nature: AttackType,
    pub true_damage: u32,
}

/// A defender's health and per-element resistances.
#[derive(Clone, Copy, Debug, PartialEq, Eq, Structural)]
pub struct CombatDefensive {
    pub health: u32,
    pub max_health: u32,
    pub fire_resistance: u32,
    pub earth_resistance: u32,
    pub lightning_resistance: u32,
    pub air_resistance: u32,
    pub nature_resistance: u32,
}

/// What one attack did: the damage dealt per element and the defender's
/// health afterwards.
#[derive(Clone, Copy, Debug, PartialEq, Eq, Structural)]
pub struct AttackOutcome {
    pub fire_damage: u32,
    pub earth_damage: u32,
    pub lightning_damage: u32,
    pub air_damage: u32,
    pub nature_damage: u32,
    pub true_damage: u32,
    pub post_attack_health: u32,
}

impl AttackOutcome {
    /// The total damage across all elements and true damage.
    pub fn sum_damage(&self) -> (r: u32)
        requires
            self.fire_damage + self.earth_damage + self.lightning_damage + self.air_damage
                + self.nature_damage + self.true_damage <= u32::MAX,
        ensures
            r == self.fire_damage + self.earth_damage + self.lightning_damage + self.air_damage
                + self.nature_damage + self.true_damage,
    {
        self.fire_damage + self.earth_damage + self.lightning_damage + self.air_damage
            + self.nature_damage + self.true_damage
    }
}

/// The damage one element deals through a resistance: full damage when
/// penetration exceeds the resistance, else scaled down by the excess
/// resistance.
pub open spec fn damage_through(attack: AttackType, resistance: u32) -> int {
    if attack.penetration > resistance {
        attack.damage as int
    } else {
        (attack.damage * 100) / (100 + resistance - attack.penetration)
    }
}

/// Anything that can be hit by a [`CombatOffensive`].
pub trait Attackable {
    /// Applies one attack, returning the damage dealt and the new health.
    /// If the damage would take the defender below zero, its health is set
    /// to zero instead.
    fn receive_attack(&mut self, source: &CombatOffensive) -> AttackOutcome;
}

/// Scales one element's damage through a resistance.
fn scale_damage(attack: AttackType, resistance: u32) -> (r: u32)
    ensures
        r == damage_through(attack, resistance),
        r <= attack.damage,
{
    if attack.penetration > resistance {
        attack.damage
    } else {
        let scaled = (attack.damage as u64) * 100;
        let divisor = 100u64 + ((resistance - attack.penetration) as u64);
        let q = scaled / divisor;
        proof {
            assert(q <= attack.damage) by (nonlinear_arith)
                requires
                    q == ((attack.damage as u64) * 100) as int / (100 + (resistance
                        - attack.penetration) as int),
                    resistance >= attack.penetration,
            ;
        }
        q as u32
    }
}

impl CombatDefensive {
    /// Applies one attack: each element's damage is scaled through the
    /// matching resistance, true damage passes unresisted, and health
    /// drops by the total, saturating at zero.
    pub fn apply_attack(&mut self, source: &CombatOffensive) -> (r: AttackOutcome)
        ensures
            r.fire_damage == damage_through(source.fire, old(self).fire_resistance),
            r.earth_damage == damage_through(source.earth, old(self).earth_resistance),
            r.lightning_damage == damage_through(source.lightning, old(self).lightning_resistance),
            r.air_damage == damage_through(source.air, old(self).air_resistance),
            r.nature_damage == damage_through(source.nature, old(self).nature_resistance),
            r.true_damage == source.true_damage,
            final(self).health == if r.fire_damage + r.earth_damage + r.lightning_damage
                + r.air_damage + r.nature_damage + r.true_damage > old(self).health {
                0
            } else {
                old(self).health - (r.fire_damage + r.earth_damage + r.lightning_damage
                    + r.air_damage + r.nature_damage + r.true_damage)
            },
            r.post_attack_health == final(self).health,
            final(self).max_health == old(self).max_health,
            final(self).fire_resistance == old(self).fire_resistance,
            final(self).earth_resistance == old(self).earth_resistance,
            final(self).lightning_resistance == old(self).lightning_resistance,
            final(self).air_resistance == old(self).air_resistance,
            final(self).nature_resistance == old(self).nature_resistance,
    {
        let fire_damage = scale_damage(source.fire, self.fire_resistance);
        let earth_damage = scale_damage(source.earth, self.earth_resistance);
        let lightning_damage = scale_damage(source.lightning, self.lightning_resistance);
        let air_damage = scale_damage(source.air, self.air_resistance);
        let nature_damage = scale_damage(source.nature, self.nature_resistance);
        let total_damage: u64 = (fire_damage as u64) + (earth_damage as u64) + (lightning_damage
            as u64) + (air_damage as u64) + (nature_damage as u64) + (source.true_damage as u64);
        if total_damage > (self.health as u64) {
            self.health = 0;
        } else {
            self.health = self.health - (total_damage as u32);
        }
        AttackOutcome {
            fire_damage,
            earth_damage,
            lightning_damage,
            air_damage,
            nature_damage,
            true_damage: source.true_damage,
            post_attack_health: self.health,
        }
    }
}

impl Attackable for CombatDefensive {
    fn receive_attack(&mut self, source: &CombatOffensive) -> AttackOutcome {
        self.apply_attack(source)
    }
}

} // verus!
