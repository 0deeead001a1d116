//! Elves: the quarry, and what each one is worth.

use vstd::prelude::*;

verus! {

/// The people an elf belongs to.
///
/// Variants are declared in ascending weight, so the derived order ranks
/// races by weight.
#[derive(Debug, PartialEq, Eq, Structural, PartialOrd, Clone, Copy, Hash)]
pub enum Race {
    Dark,
    High,
}

/// The trade an elf follows.
///
/// Variants are declared in ascending weight, so the derived order ranks
/// roles by weight: a warlock ranks below a priest.
#[derive(Debug, PartialEq, Eq, Structural, PartialOrd, Clone, Copy, Hash)]
pub enum Role {
    Swordsman,
    Archer,
    Warlock,
    Priest,
}

/// An elf, identified by its race and its role.
///
/// Two elves are the same elf exactly when both attributes agree; elves of
/// different attributes may still be worth the same.
#[derive(Debug, PartialEq, Eq, Structural, PartialOrd, Clone, Copy, Hash)]
pub struct Elf {
    pub race: Race,
    pub role: Role,
}

impl Race {
    /// The weight a race contributes to an elf's value.
    pub open spec fn spec_weight(self) -> nat {
        match self {
            Race::Dark => 1,
            Race::High => 2,
        }
    }

    /// The weight of the race.
    pub fn weight(self) -> (w: u32)
        ensures
            w == self.spec_weight(),
    {
        match self {
            Race::Dark => 1,
            Race::High => 2,
        }
    }
}

impl Role {
    /// The weight a role contributes to an elf's value.
    pub open spec fn spec_weight(self) -> nat {
        match self {
            Role::Swordsman => 1,
            Role::Archer => 2,
            Role::Warlock => 4,
            Role::Priest => 5,
        }
    }

    /// The weight of the role.
    pub fn weight(self) -> (w: u32)
        ensures
            w == self.spec_weight(),
    {
        match self {
            Role::Swordsman => 1,
            Role::Archer => 2,
            Role::Warlock => 4,
            Role::Priest => 5,
        }
    }
}

impl Elf {
    /// The value of an elf: the weight of its race times the weight of its role.
    pub open spec fn spec_value(self) -> nat {
        self.race.spec_weight() * self.role.spec_weight()
    }

    /// The elf of the given role and race.
    pub fn new(role: Role, race: Race) -> (elf: Elf)
        ensures
            elf.role == role,
            elf.race == race,
    {
        Elf { race, role }
    }

    /// The value of the elf. Every elf is worth at least one point and at
    /// most ten.
    pub fn value(&self) -> (v: u32)
        ensures
            v == self.spec_value(),
            0 < v <= 10,
    {
        self.race.weight() * self.role.weight()
    }
}

} // verus!
