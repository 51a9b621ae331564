//! The plain data of the game's entities.

use vstd::prelude::*;
use crate::geometry::{greater, lesser, Point};

verus! {

/// What an entity can see.
pub struct Viewshed {
    pub visible_tiles: Vec<Point>,
    pub range: i32,
    /// Set when the visible tiles have to be worked out again.
    pub dirty: bool,
}

impl Viewshed {
    /// A view of the given range that has yet to be worked out.
    pub fn new(range: i32) -> (view: Viewshed)
        ensures
            view.visible_tiles@ == Seq::<Point>::empty(),
            view.range == range,
            view.dirty,
    {
        Viewshed { visible_tiles: Vec::new(), range, dirty: true }
    }
}

/// The health and the strength of a fighter.
#[derive(Clone, Copy, PartialEq, Eq, Structural, Debug)]
pub struct CombatStats {
    pub max_hp: i32,
    pub hp: i32,
    pub defense: i32,
    pub power: i32,
    pub was_hurt: bool,
}

impl CombatStats {
    /// A fighter in full health that has not been hurt.
    pub fn new(hp: i32, defense: i32, power: i32) -> (stats: CombatStats)
        ensures
            stats == (CombatStats { max_hp: hp, hp, defense, power, was_hurt: false }),
    {
        CombatStats { max_hp: hp, hp, defense, power, was_hurt: false }
    }

    /// Takes `amount` off the health and marks the fighter as hurt.
    pub fn deal_damage(&mut self, amount: i32)
        requires
            i32::MIN <= old(self).hp - amount <= i32::MAX,
        ensures
            *final(self) == (CombatStats {
                hp: (old(self).hp - amount) as i32,
                was_hurt: true,
                ..*old(self)
            }),
    {
        self.hp = self.hp - amount;
        self.was_hurt = true;
    }

    /// Adds `amount` to the health, up to full health.
    pub fn heal(&mut self, amount: i32)
        requires
            i32::MIN <= old(self).hp + amount <= i32::MAX,
        ensures
            *final(self) == (CombatStats {
                hp: lesser(old(self).max_hp as int, old(self).hp + amount) as i32,
                ..*old(self)
            }),
    {
        let healed = self.hp + amount;
        self.hp = if self.max_hp <= healed {
            self.max_hp
        } else {
            healed
        };
    }
}

impl CombatStats {
    /// The fighter has no health left.
    pub open spec fn dead(&self) -> bool {
        self.hp < 1
    }

    /// Whether the fighter has no health left.
    pub fn is_dead(&self) -> (gone: bool)
        ensures
            gone == self.dead(),
    {
        self.hp < 1
    }
}

/// What a blow takes off the target's health: the attacker's power and
/// bonus less the target's defense and bonus, and never less than nothing.
pub open spec fn blow(
    attacker: CombatStats,
    offensive_bonus: int,
    target: CombatStats,
    defensive_bonus: int,
) -> int {
    greater(0, attacker.power + offensive_bonus - target.defense - defensive_bonus)
}

/// What a blow takes off the target's health.
pub fn melee_damage(
    attacker: &CombatStats,
    offensive_bonus: i32,
    target: &CombatStats,
    defensive_bonus: i32,
) -> (damage: i32)
    requires
        blow(*attacker, offensive_bonus as int, *target, defensive_bonus as int) <= i32::MAX,
    ensures
        damage == blow(*attacker, offensive_bonus as int, *target, defensive_bonus as int),
{
    let raw: i64 = (attacker.power as i64) + (offensive_bonus as i64) - (target.defense as i64) - (
    defensive_bonus as i64);
    if raw > 0 {
        raw as i32
    } else {
        0
    }
}

/// One blow. Nothing happens unless both fighters have health left; else
/// the blow's damage is dealt, if it is any, and handed back.
pub fn strike(
    attacker: &CombatStats,
    offensive_bonus: i32,
    target: &mut CombatStats,
    defensive_bonus: i32,
) -> (dealt: Option<i32>)
    requires
        blow(*attacker, offensive_bonus as int, *old(target), defensive_bonus as int) <= i32::MAX,
        i32::MIN <= old(target).hp - blow(
            *attacker,
            offensive_bonus as int,
            *old(target),
            defensive_bonus as int,
        ),
    ensures
        dealt.is_some() == (attacker.hp > 0 && old(target).hp > 0),
        dealt matches Some(damage) ==> damage == blow(
            *attacker,
            offensive_bonus as int,
            *old(target),
            defensive_bonus as int,
        ),
        *final(target) == match dealt {
            Some(damage) if damage > 0 => CombatStats {
                hp: (old(target).hp - damage) as i32,
                was_hurt: true,
                ..*old(target)
            },
            _ => *old(target),
        },
{
    if attacker.hp > 0 && target.hp > 0 {
        let damage = melee_damage(attacker, offensive_bonus, target, defensive_bonus);
        if damage > 0 {
            target.deal_damage(damage);
        }
        Some(damage)
    } else {
        None
    }
}

/// The turns for which a creature stays confused.
#[derive(Clone, Copy, PartialEq, Eq, Structural, Debug)]
pub struct Confused {
    pub turns: i32,
}

impl Confused {
    /// Lets one turn pass, and says whether the confusion is over.
    pub fn tick(&mut self) -> (over: bool)
        requires
            old(self).turns > i32::MIN,
        ensures
            final(self).turns == old(self).turns - 1,
            over == (final(self).turns < 1),
    {
        self.turns = self.turns - 1;
        self.turns < 1
    }
}

} // verus!
