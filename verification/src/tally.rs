//! The mathematical record of a hunt, and the laws its operations obey.
//!
//! A [`Tally`] is what a troll's record means: a name, and for each elf slain
//! the number of kills still standing. Every operation of the hunter is
//! defined here as a function on tallies; the executable code is proved to
//! compute exactly these functions.

use crate::elf::Elf;
use crate::elf::Race;
use crate::elf::Role;
use vstd::prelude::*;

verus! {

/// The record of one troll's hunt.
#[verifier::ext_equal]
pub struct Tally {
    /// The troll's name.
    pub name: Seq<char>,
    /// The kills still standing, by elf. An elf without kills has no entry.
    pub kills: Map<Elf, nat>,
}

impl Tally {
    /// The record of a troll that has not hunted yet.
    pub open spec fn new(name: Seq<char>) -> Tally {
        Tally { name, kills: Map::empty() }
    }

    /// A tally is well formed when every entry counts at least one kill.
    pub open spec fn wf(self) -> bool {
        forall|e: Elf| self.kills.contains_key(e) ==> self.kills[e] > 0
    }

    /// The kills standing against `e`; none when `e` has no entry.
    pub open spec fn count(self, e: Elf) -> nat {
        if self.kills.contains_key(e) {
            self.kills[e]
        } else {
            0
        }
    }

    /// Forgets every kill of `e`.
    pub open spec fn all_elves_of_a_kind_resurrected(self, e: Elf) -> Tally {
        Tally { name: self.name, kills: self.kills.remove(e) }
    }

    /// Forgets every kill; the name stays.
    pub open spec fn all_elves_resurrected(self) -> Tally {
        Tally::new(self.name)
    }

    /// Adds `k` to the kills of `e`, where `k` may be negative. A count that
    /// would drop to zero or below leaves no entry.
    pub open spec fn i_got(self, k: int, e: Elf) -> Tally {
        let updated = self.count(e) + k;
        if updated <= 0 {
            self.all_elves_of_a_kind_resurrected(e)
        } else {
            Tally { name: self.name, kills: self.kills.insert(e, updated as nat) }
        }
    }

    /// One more kill of `e`.
    pub open spec fn i_got_one(self, e: Elf) -> Tally {
        Tally { name: self.name, kills: self.kills.insert(e, self.count(e) + 1) }
    }

    /// One kill of `e` fewer; the entry goes with the last kill.
    pub open spec fn oops_he_survived(self, e: Elf) -> Tally {
        if self.count(e) <= 1 {
            self.all_elves_of_a_kind_resurrected(e)
        } else {
            Tally { name: self.name, kills: self.kills.insert(e, (self.count(e) - 1) as nat) }
        }
    }

    /// The score of the hunt: over all entries, the elf's value times its kills.
    pub open spec fn scoring(self) -> nat {
        score_over(self.kills, self.kills.dom())
    }
}

/// Adds to a running sum what the kills of one elf are worth.
pub open spec fn add_worth(kills: Map<Elf, nat>) -> spec_fn(nat, Elf) -> nat {
    |sum: nat, e: Elf| sum + e.spec_value() * kills[e]
}

/// What the kills of the elves in `among` are worth together.
pub open spec fn score_over(kills: Map<Elf, nat>, among: Set<Elf>) -> nat {
    among.fold(0nat, add_worth(kills))
}

/// The eight elves there are.
pub open spec fn all_elves() -> Set<Elf> {
    set![
        Elf { race: Race::Dark, role: Role::Swordsman },
        Elf { race: Race::Dark, role: Role::Archer },
        Elf { race: Race::Dark, role: Role::Warlock },
        Elf { race: Race::Dark, role: Role::Priest },
        Elf { race: Race::High, role: Role::Swordsman },
        Elf { race: Race::High, role: Role::Archer },
        Elf { race: Race::High, role: Role::Warlock },
        Elf { race: Race::High, role: Role::Priest },
    ]
}

/// Any set of elves is finite: there are only eight elves.
pub proof fn lemma_elves_are_finite(elves: Set<Elf>)
    ensures
        elves.finite(),
        elves.len() <= 8,
{
    assert forall|e: Elf| elves.contains(e) implies all_elves().contains(e) by {
        lemma_all_elves_is_everyone(e);
    }
    assert(elves.subset_of(all_elves()));
    vstd::set_lib::lemma_len_subset(elves, all_elves());
}

/// Every elf is one of the eight.
pub proof fn lemma_all_elves_is_everyone(e: Elf)
    ensures
        all_elves().contains(e),
        all_elves().finite(),
        all_elves().len() == 8,
{
    match (e.race, e.role) {
        (Race::Dark, Role::Swordsman) => {},
        (Race::Dark, Role::Archer) => {},
        (Race::Dark, Role::Warlock) => {},
        (Race::Dark, Role::Priest) => {},
        (Race::High, Role::Swordsman) => {},
        (Race::High, Role::Archer) => {},
        (Race::High, Role::Warlock) => {},
        (Race::High, Role::Priest) => {},
    }
}

/// The order in which worths are added does not matter.
pub proof fn lemma_add_worth_commutes(kills: Map<Elf, nat>)
    ensures
        vstd::set::fold::is_fun_commutative(add_worth(kills)),
{
}

/// Counting one more elf adds what its kills are worth.
pub proof fn lemma_score_over_insert(kills: Map<Elf, nat>, among: Set<Elf>, e: Elf)
    requires
        !among.contains(e),
    ensures
        score_over(kills, among.insert(e)) == score_over(kills, among) + e.spec_value() * kills[e],
{
    lemma_elves_are_finite(among);
    lemma_add_worth_commutes(kills);
    vstd::set::fold::lemma_fold_insert(among, 0nat, add_worth(kills), e);
}

/// No elves, no score.
pub proof fn lemma_score_over_nobody(kills: Map<Elf, nat>)
    ensures
        score_over(kills, Set::empty()) == 0,
{
    vstd::set::fold::lemma_fold_empty::<Elf, nat>(0nat, add_worth(kills));
}

/// What the elves in `among` are worth depends on their kills alone.
pub proof fn lemma_score_over_same_kills(
    kills: Map<Elf, nat>,
    others: Map<Elf, nat>,
    among: Set<Elf>,
)
    requires
        forall|e: Elf| among.contains(e) ==> kills[e] == others[e],
    ensures
        score_over(kills, among) == score_over(others, among),
    decreases among.len(),
{
    lemma_elves_are_finite(among);
    if among.is_empty() {
        assert(among =~= Set::empty());
        lemma_score_over_nobody(kills);
        lemma_score_over_nobody(others);
    } else {
        let e = among.choose();
        let rest = among.remove(e);
        lemma_score_over_same_kills(kills, others, rest);
        lemma_score_over_insert(kills, rest, e);
        lemma_score_over_insert(others, rest, e);
        assert(rest.insert(e) =~= among);
    }
}

/// The score is what the kills of any one elf are worth, plus the score
/// without them.
pub proof fn lemma_score_splits(t: Tally, e: Elf)
    ensures
        t.scoring() == e.spec_value() * t.count(e) + t.all_elves_of_a_kind_resurrected(
            e,
        ).scoring(),
{
    let without = t.all_elves_of_a_kind_resurrected(e);
    assert(without.kills.dom() =~= t.kills.dom().remove(e));
    lemma_score_over_same_kills(t.kills, without.kills, without.kills.dom());
    if t.kills.contains_key(e) {
        assert(without.kills.dom().insert(e) =~= t.kills.dom());
        lemma_score_over_insert(t.kills, without.kills.dom(), e);
    } else {
        assert(without.kills.dom() =~= t.kills.dom());
        assert(e.spec_value() * 0 == 0);
    }
}

/// A gain changes the score by the value of the elf times the change of
/// its count.
pub proof fn lemma_score_after_i_got(t: Tally, k: int, e: Elf)
    ensures
        t.i_got(k, e).scoring() == t.scoring() + e.spec_value() * (t.i_got(k, e).count(e)
            - t.count(e)),
{
    let after = t.i_got(k, e);
    assert(after.all_elves_of_a_kind_resurrected(e) == t.all_elves_of_a_kind_resurrected(e));
    lemma_score_splits(t, e);
    lemma_score_splits(after, e);
    assert(e.spec_value() * (after.count(e) - t.count(e)) == e.spec_value() * after.count(e)
        - e.spec_value() * t.count(e)) by (nonlinear_arith);
}

/// A troll that has not hunted scores nothing.
pub proof fn lemma_new_scores_nothing(name: Seq<char>)
    ensures
        Tally::new(name).wf(),
        Tally::new(name).scoring() == 0,
{
    lemma_score_over_nobody(Tally::new(name).kills);
    assert(Tally::new(name).kills.dom() =~= Set::empty());
}

/// Once every elf is resurrected, the score is zero, whatever it was before.
pub proof fn lemma_all_resurrected_scores_nothing(t: Tally)
    ensures
        t.all_elves_resurrected().scoring() == 0,
{
    lemma_new_scores_nothing(t.name);
}

/// A kill followed by the survival of the same elf leaves the tally as it was:
/// the same name and the same entries, not merely the same score.
pub proof fn lemma_survival_undoes_kill(t: Tally, e: Elf)
    requires
        t.wf(),
    ensures
        t.i_got_one(e).oops_he_survived(e) == t,
{
    let back = t.i_got_one(e).oops_he_survived(e);
    assert(back.kills =~= t.kills);
}

/// One kill is a gain of one, and one survival a gain of minus one.
pub proof fn lemma_one_kill_is_a_gain_of_one(t: Tally, e: Elf)
    ensures
        t.i_got_one(e) == t.i_got(1, e),
        t.oops_he_survived(e) == t.i_got(-1, e),
{
}

/// Resurrecting the elves of a kind a second time changes nothing.
pub proof fn lemma_resurrection_is_idempotent(t: Tally, e: Elf)
    ensures
        t.all_elves_of_a_kind_resurrected(e).all_elves_of_a_kind_resurrected(e)
            == t.all_elves_of_a_kind_resurrected(e),
{
    let once = t.all_elves_of_a_kind_resurrected(e);
    assert(once.kills.remove(e) =~= once.kills);
}

/// Resurrecting the elves of a kind that has no entry changes nothing.
pub proof fn lemma_resurrection_of_the_living(t: Tally, e: Elf)
    requires
        !t.kills.contains_key(e),
    ensures
        t.all_elves_of_a_kind_resurrected(e) == t,
{
    assert(t.kills.remove(e) =~= t.kills);
}

/// Every operation keeps a well-formed tally well formed, so every tally
/// reached from a new one is well formed.
pub proof fn lemma_operations_keep_wf(t: Tally, k: int, e: Elf)
    requires
        t.wf(),
    ensures
        t.i_got(k, e).wf(),
        t.i_got_one(e).wf(),
        t.oops_he_survived(e).wf(),
        t.all_elves_of_a_kind_resurrected(e).wf(),
        t.all_elves_resurrected().wf(),
{
}

/// The score is never negative, and it is zero only where nothing is recorded.
pub proof fn lemma_score_is_not_negative(t: Tally)
    requires
        t.wf(),
    ensures
        t.scoring() >= 0,
        t.scoring() == 0 <==> t.kills.dom().is_empty(),
{
    if t.kills.dom().is_empty() {
        assert(t.kills.dom() =~= Set::empty());
        lemma_score_over_nobody(t.kills);
    } else {
        let e = t.kills.dom().choose();
        let rest = t.kills.dom().remove(e);
        lemma_elves_are_finite(t.kills.dom());
        assert(rest.insert(e) =~= t.kills.dom());
        lemma_score_over_insert(t.kills, rest, e);
        assert(e.spec_value() * t.kills[e] > 0) by (nonlinear_arith)
            requires
                e.spec_value() > 0,
                t.kills[e] > 0,
        ;
    }
}

} // verus!
