use vstd::prelude::*;

verus! {

/// The hull class of a ship. It carries no rule of its own.
#[derive(Clone, Copy, Debug, PartialEq, Eq, Structural)]
pub enum ShipType {
    Interceptor,
    Cruiser,
    Dreadnought,
    Starbase,
}

/// The combat statistics of one ship.
///
/// A ship is alive while `hull >= 0`; a destroyed ship has `hull == -1`.
#[derive(Clone, Copy, Debug, PartialEq, Eq, Structural)]
pub struct Ship {
    pub hull: i32,
    pub initiative: i32,
    pub shield: i32,
    pub computer: i32,
    pub weapon_1_dmg: i32,
    pub weapon_2_dmg: i32,
    pub ship_type: ShipType,
}

/// Hull value that marks a destroyed ship.
pub const DESTROYED: i32 = -1;

impl Ship {
    pub open spec fn is_alive(self) -> bool {
        self.hull >= 0
    }

    /// The ship with its hull set to `hull`, everything else kept.
    pub open spec fn with_hull(self, hull: int) -> Ship {
        Ship { hull: hull as i32, ..self }
    }

    /// Six times the damage index
    /// `(weapon_1_dmg + weapon_2_dmg) * min(1, 1 + computer / 6)`,
    /// which makes it an exact integer.
    pub open spec fn damage_index_x6(self) -> int {
        let c = self.computer as int;
        let factor = if c >= 0 { 6 } else { 6 + c };
        (self.weapon_1_dmg as int + self.weapon_2_dmg as int) * factor
    }

    /// `self` is at least as attractive a target as `other`: a higher
    /// damage index, or the same damage index and no more hull.
    pub open spec fn ranks_at_least(self, other: Ship) -> bool {
        self.damage_index_x6() > other.damage_index_x6() || (self.damage_index_x6()
            == other.damage_index_x6() && self.hull <= other.hull)
    }

    pub fn new(
        hull: i32,
        initiative: i32,
        shield: i32,
        computer: i32,
        weapon_1_dmg: i32,
        weapon_2_dmg: i32,
        ship_type: ShipType,
    ) -> (r: Ship)
        ensures
            r == (Ship { hull, initiative, shield, computer, weapon_1_dmg, weapon_2_dmg, ship_type }),
    {
        Ship { hull, initiative, shield, computer, weapon_1_dmg, weapon_2_dmg, ship_type }
    }

    pub fn clone(&self) -> (r: Ship)
        ensures
            r == *self,
    {
        Ship {
            hull: self.hull,
            initiative: self.initiative,
            shield: self.shield,
            computer: self.computer,
            weapon_1_dmg: self.weapon_1_dmg,
            weapon_2_dmg: self.weapon_2_dmg,
            ship_type: self.ship_type,
        }
    }

    /// Six times the damage index (see `damage_index_x6`).
    pub fn get_damage_index(&self) -> (r: i128)
        ensures
            r == self.damage_index_x6(),
    {
        let c = self.computer as i128;
        let factor: i128 = if c >= 0 { 6 } else { 6 + c };
        let dmg = self.weapon_1_dmg as i128 + self.weapon_2_dmg as i128;
        assert(-0x1_0000_0000 <= dmg <= 0x1_0000_0000);
        assert(-0x8000_0000 <= factor <= 6);
        assert(-0x1_0000_0000_0000_0000 <= dmg * factor <= 0x1_0000_0000_0000_0000) by (nonlinear_arith)
            requires
                -0x1_0000_0000 <= dmg <= 0x1_0000_0000,
                -0x8000_0000 <= factor <= 6,
        ;
        dmg * factor
    }

    /// Whether `self` is at least as attractive a target as `other`.
    pub fn ranks_at_least_exec(&self, other: &Ship) -> (r: bool)
        ensures
            r == self.ranks_at_least(*other),
    {
        let a = self.get_damage_index();
        let b = other.get_damage_index();
        a > b || (a == b && self.hull <= other.hull)
    }
}

} // verus!
