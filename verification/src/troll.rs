//! Trolls: the hunters, and the record each one keeps.

use crate::elf::Elf;
use crate::elf::Race;
use crate::elf::Role;
use crate::tally::lemma_elves_are_finite;
use crate::tally::lemma_one_kill_is_a_gain_of_one;
use crate::tally::lemma_score_over_insert;
use crate::tally::lemma_score_over_nobody;
use crate::tally::score_over;
use crate::tally::Tally;
use std::collections::HashMap;
use vstd::prelude::*;
use vstd::std_specs::cmp::PartialEqSpecImpl;

verus! {

/// A troll and the kills it can boast of.
///
/// The record is a value: every operation consumes the troll and hands back
/// the troll as it is afterwards. What a troll's record means is its view, a
/// [`Tally`]. Two trolls are equal when their tallies are.
#[derive(Debug)]
pub struct Troll {
    name: String,
    /// Kills by slot; see [`slot`]. No slot is kept for an elf without kills.
    kills: HashMap<u8, u32>,
}

/// The number of slots, one for each elf there is.
const SLOTS: u8 = 8;

/// The slot under which the kills of `e` are kept. Distinct elves have
/// distinct slots.
spec fn slot(e: Elf) -> u8 {
    match (e.race, e.role) {
        (Race::Dark, Role::Swordsman) => 0,
        (Race::Dark, Role::Archer) => 1,
        (Race::Dark, Role::Warlock) => 2,
        (Race::Dark, Role::Priest) => 3,
        (Race::High, Role::Swordsman) => 4,
        (Race::High, Role::Archer) => 5,
        (Race::High, Role::Warlock) => 6,
        (Race::High, Role::Priest) => 7,
    }
}

fn slot_of(e: Elf) -> (s: u8)
    ensures
        s == slot(e),
        s < SLOTS,
{
    match (e.race, e.role) {
        (Race::Dark, Role::Swordsman) => 0,
        (Race::Dark, Role::Archer) => 1,
        (Race::Dark, Role::Warlock) => 2,
        (Race::Dark, Role::Priest) => 3,
        (Race::High, Role::Swordsman) => 4,
        (Race::High, Role::Archer) => 5,
        (Race::High, Role::Warlock) => 6,
        (Race::High, Role::Priest) => 7,
    }
}

/// The elf whose kills are kept under slot `s`.
spec fn elf_at(s: u8) -> Elf {
    if s == 0 {
        Elf { race: Race::Dark, role: Role::Swordsman }
    } else if s == 1 {
        Elf { race: Race::Dark, role: Role::Archer }
    } else if s == 2 {
        Elf { race: Race::Dark, role: Role::Warlock }
    } else if s == 3 {
        Elf { race: Race::Dark, role: Role::Priest }
    } else if s == 4 {
        Elf { race: Race::High, role: Role::Swordsman }
    } else if s == 5 {
        Elf { race: Race::High, role: Role::Archer }
    } else if s == 6 {
        Elf { race: Race::High, role: Role::Warlock }
    } else {
        Elf { race: Race::High, role: Role::Priest }
    }
}

fn elf_in_slot(s: u8) -> (e: Elf)
    requires
        s < SLOTS,
    ensures
        e == elf_at(s),
        slot(e) == s,
{
    let race = if s < 4 {
        Race::Dark
    } else {
        Race::High
    };
    let role = match s % 4 {
        0 => Role::Swordsman,
        1 => Role::Archer,
        2 => Role::Warlock,
        _ => Role::Priest,
    };
    Elf::new(role, race)
}

/// Slots and elves correspond one to one.
proof fn lemma_slots_match_elves()
    ensures
        forall|e: Elf| #[trigger] slot(e) < SLOTS && elf_at(slot(e)) == e,
        forall|s: u8| s < SLOTS ==> #[trigger] slot(elf_at(s)) == s,
{
}

/// The elves with an entry in `kills` whose slot lies below `below`.
spec fn counted(kills: Map<Elf, nat>, below: int) -> Set<Elf> {
    Set::new(|e: Elf| kills.contains_key(e) && slot(e) < below)
}

impl View for Troll {
    type V = Tally;

    /// The entries are the slots that hold a kill, each under its elf. Since
    /// an empty slot would count for nothing, every view is well formed, also
    /// in ghost code, where the type invariant is not at hand.
    closed spec fn view(&self) -> Tally {
        Tally {
            name: self.name@,
            kills: Map::new(
                |e: Elf| self.kills@.contains_key(slot(e)) && self.kills@[slot(e)] > 0,
                |e: Elf| self.kills@[slot(e)] as nat,
            ),
        }
    }
}

impl Troll {
    /// Only slots of elves are in use, and none of them is empty.
    #[verifier::type_invariant]
    spec fn inv(self) -> bool {
        forall|s: u8| self.kills@.contains_key(s) ==> s < SLOTS && self.kills@[s] > 0
    }

    /// The record of any troll is a well-formed tally, none of whose counts
    /// exceeds what a counter can hold.
    pub proof fn lemma_view_wf(self)
        ensures
            self@.wf(),
            forall|e: Elf| #[trigger] self@.count(e) <= u32::MAX,
    {
    }

    /// A troll of the given name that has not hunted yet.
    pub fn new(name: String) -> (t: Troll)
        ensures
            t@ == Tally::new(name@),
    {
        let t = Troll { name, kills: HashMap::new() };
        assert(t@.kills =~= Map::empty());
        t
    }

    /// The troll after `k` more kills of `e`, or after `-k` of them turned
    /// out to have survived. A count that would drop to zero or below leaves
    /// no entry for `e`.
    ///
    /// The new count must fit the counter.
    pub fn i_got(self, k: i32, e: Elf) -> (t: Troll)
        requires
            self@.count(e) + k <= u32::MAX,
        ensures
            t@ == self@.i_got(k as int, e),
    {
        proof {
            use_type_invariant(&self);
        }
        let ghost before = self@;
        let s = slot_of(e);
        let current: u32 = match self.kills.get(&s) {
            Some(count) => *count,
            None => 0,
        };
        let updated: i64 = current as i64 + k as i64;
        if updated <= 0 {
            self.all_elves_of_a_kind_resurrected(e)
        } else {
            let mut kills = self.kills;
            kills.insert(s, updated as u32);
            let t = Troll { name: self.name, kills };
            assert(t@.kills =~= before.i_got(k as int, e).kills);
            t
        }
    }

    /// The troll after all its kills of `e` are forgotten. A troll without
    /// kills of `e` stays as it is.
    pub fn all_elves_of_a_kind_resurrected(self, e: Elf) -> (t: Troll)
        ensures
            t@ == self@.all_elves_of_a_kind_resurrected(e),
    {
        proof {
            use_type_invariant(&self);
        }
        let ghost before = self@;
        let s = slot_of(e);
        let mut kills = self.kills;
        kills.remove(&s);
        let t = Troll { name: self.name, kills };
        assert(t@.kills =~= before.all_elves_of_a_kind_resurrected(e).kills);
        t
    }

    /// The troll after one more kill of `e`.
    ///
    /// The new count must fit the counter.
    pub fn i_got_one(self, e: Elf) -> (t: Troll)
        requires
            self@.count(e) < u32::MAX,
        ensures
            t@ == self@.i_got_one(e),
    {
        proof {
            lemma_one_kill_is_a_gain_of_one(self@, e);
        }
        self.i_got(1, e)
    }

    /// The troll after one of its kills of `e` turned out to have survived.
    /// With the last kill the entry goes too, and a troll without kills of
    /// `e` stays as it is.
    pub fn oops_he_survived(self, e: Elf) -> (t: Troll)
        ensures
            t@ == self@.oops_he_survived(e),
    {
        proof {
            lemma_one_kill_is_a_gain_of_one(self@, e);
        }
        self.i_got(-1, e)
    }

    /// The troll after all its kills are forgotten; it keeps its name.
    pub fn all_elves_resurrected(self) -> (t: Troll)
        ensures
            t@ == self@.all_elves_resurrected(),
    {
        Troll::new(self.name)
    }

    /// The score of the hunt: over all elves slain, the elf's value times the
    /// kills standing against it. A troll without kills scores zero.
    pub fn scoring(self) -> (score: u64)
        ensures
            score == self@.scoring(),
    {
        proof {
            use_type_invariant(&self);
            lemma_slots_match_elves();
            lemma_score_over_nobody(self@.kills);
            assert(counted(self@.kills, 0) =~= Set::empty());
        }
        let mut score: u64 = 0;
        let mut s: u8 = 0;
        while s < SLOTS
            invariant
                s <= SLOTS,
                self.inv(),
                score == score_over(self@.kills, counted(self@.kills, s as int)),
                score <= s * (10 * u32::MAX),
            decreases SLOTS - s,
        {
            let e = elf_in_slot(s);
            let worth: u64 = match self.kills.get(&s) {
                Some(count) => {
                    let value = e.value();
                    assert(value * *count <= 10 * u32::MAX) by (nonlinear_arith)
                        requires
                            0 <= value <= 10,
                            0 <= *count <= u32::MAX,
                    ;
                    value as u64 * *count as u64
                },
                None => 0,
            };
            proof {
                lemma_slots_match_elves();
                let before = counted(self@.kills, s as int);
                let after = counted(self@.kills, s + 1);
                if self@.kills.contains_key(e) {
                    assert(after =~= before.insert(e));
                    lemma_score_over_insert(self@.kills, before, e);
                } else {
                    assert(after =~= before);
                }
            }
            score = score + worth;
            s = s + 1;
        }
        proof {
            lemma_slots_match_elves();
            assert(counted(self@.kills, SLOTS as int) =~= self@.kills.dom());
        }
        score
    }

    /// The kills standing against `e`, if there are any.
    pub fn kills_of(&self, e: Elf) -> (kills: Option<u32>)
        ensures
            match kills {
                Some(count) => self@.kills.contains_key(e) && self@.kills[e] == count,
                None => !self@.kills.contains_key(e),
            },
    {
        proof {
            use_type_invariant(self);
        }
        match self.kills.get(&slot_of(e)) {
            Some(count) => Some(*count),
            None => None,
        }
    }

    /// The number of entries: how many different elves the troll has kills of.
    pub fn kinds_killed(&self) -> (n: usize)
        ensures
            n == self@.kills.dom().len(),
    {
        proof {
            use_type_invariant(self);
            lemma_slots_match_elves();
            let elves = self@.kills.dom();
            let by_slot = |e: Elf| slot(e);
            lemma_elves_are_finite(elves);
            assert(elves.map(by_slot) =~= self.kills@.dom()) by {
                assert forall|s: u8| self.kills@.dom().contains(s) implies elves.map(by_slot).contains(
                    s,
                ) by {
                    assert(elves.contains(elf_at(s)) && by_slot(elf_at(s)) == s);
                }
            }
            assert(vstd::relations::injective_on(by_slot, elves)) by {
                assert forall|a: Elf, b: Elf| #[trigger]
                    by_slot(a) == #[trigger] by_slot(b) implies a == b by {
                    assert(elf_at(slot(a)) == a && elf_at(slot(b)) == b);
                }
            }
            vstd::set_lib::lemma_map_size(elves, self.kills@.dom(), by_slot);
        }
        self.kills.len()
    }
}

impl Clone for Troll {
    fn clone(&self) -> (t: Troll)
        ensures
            t@ == self@,
    {
        proof {
            use_type_invariant(self);
        }
        let t = Troll { name: self.name.clone(), kills: self.kills.clone() };
        assert(t@.kills =~= self@.kills);
        t
    }
}

impl PartialEq for Troll {
    fn eq(&self, other: &Troll) -> (same: bool) {
        proof {
            use_type_invariant(self);
            use_type_invariant(other);
            lemma_slots_match_elves();
        }
        if !(self.name == other.name) {
            return false;
        }
        let mut s: u8 = 0;
        while s < SLOTS
            invariant
                s <= SLOTS,
                self.inv(),
                other.inv(),
                self.name@ == other.name@,
                forall|e: Elf|
                    #[trigger] slot(e) < s ==> {
                        &&& self@.kills.contains_key(e) == other@.kills.contains_key(e)
                        &&& self@.kills.contains_key(e) ==> self@.kills[e] == other@.kills[e]
                    },
            decreases SLOTS - s,
        {
            let ghost e = elf_at(s);
            proof {
                lemma_slots_match_elves();
            }
            let agree = match (self.kills.get(&s), other.kills.get(&s)) {
                (Some(mine), Some(theirs)) => *mine == *theirs,
                (None, None) => true,
                _ => false,
            };
            if !agree {
                assert(self@.kills.contains_key(e) != other@.kills.contains_key(e)
                    || self@.kills[e] != other@.kills[e]);
                return false;
            }
            s = s + 1;
        }
        assert(self@.kills =~= other@.kills);
        true
    }
}

impl PartialEqSpecImpl for Troll {
    open spec fn obeys_eq_spec() -> bool {
        true
    }

    open spec fn eq_spec(&self, other: &Troll) -> bool {
        self@ == other@
    }
}

impl Eq for Troll {

}

} // verus!
