//! The turn engine: one discrete step of the simulation.
use vstd::prelude::*;
use uuid::{NoContext, Timestamp, Uuid};
use crate::combat::{Attack, Fleet, Ship, Store, copy_ship, fleets_consistent, has_fleet, has_ship, unique_ids};

verus! {

/// Whether the simulation goes on after a turn.
#[derive(Debug, Clone, Copy, PartialEq, Eq, Structural)]
pub enum Outcome {
    Continue,
    Complete,
}

/// Why damage could not be applied.
#[derive(Debug, Clone, Copy, PartialEq, Eq, Structural)]
pub enum TurnError {
    /// An attack strikes a ship that is not in the roster.
    MissingTarget,
}

/// The attacks of a turn: attack `k` has id `k + 1` and strikes ship `k`.
pub open spec fn planned(ships: Seq<Ship>) -> Seq<(int, Seq<char>)> {
    Seq::new(ships.len(), |k: int| (k + 1, ships[k].id@))
}

/// The id and target of each attack.
pub open spec fn attack_view(attacks: Seq<Attack>) -> Seq<(int, Seq<char>)> {
    attacks.map_values(|a: Attack| (a.id as int, a.target@))
}

/// The pairing policy: one attack per ship, numbered from 1 in roster
/// order, each ship being the target of its own attack.
pub fn plan_attacks(ships: &Vec<Ship>) -> (attacks: Vec<Attack>)
    requires
        ships.len() < i64::MAX,
    ensures
        attack_view(attacks@) == planned(ships@),
{
    let mut attacks: Vec<Attack> = Vec::new();
    let mut k: usize = 0;
    while k < ships.len()
        invariant
            k <= ships.len() < i64::MAX,
            attacks.len() == k,
            attack_view(attacks@) == planned(ships@.take(k as int)),
        decreases ships.len() - k,
    {
        let ghost before = attacks@;
        let a = Attack { id: (k + 1) as i64, target: ships[k].id.clone() };
        attacks.push(a);
        assert forall|j: int| 0 <= j < k implies attack_view(attacks@)[j] == planned(ships@.take(k + 1))[j] by {
            assert(attacks@[j] == before[j]);
            assert(attack_view(before)[j] == planned(ships@.take(k as int))[j]);
        }
        k = k + 1;
        assert(attack_view(attacks@) =~= planned(ships@.take(k as int)));
    }
    assert(ships@.take(k as int) =~= ships@);
    attacks
}

/// How many of `attacks` strike the ship with id `id`.
pub open spec fn hits(attacks: Seq<Attack>, id: Seq<char>) -> nat
    decreases attacks.len(),
{
    if attacks.len() == 0 {
        0
    } else {
        hits(attacks.drop_last(), id) + if attacks.last().target@ == id {
            1nat
        } else {
            0nat
        }
    }
}

/// Every attack strikes a ship of the roster.
pub open spec fn targets_present(ships: Seq<Ship>, attacks: Seq<Attack>) -> bool {
    forall|k: int| 0 <= k < attacks.len() ==> #[trigger] has_ship(ships, attacks[k].target@)
}

/// No ship would be taken below the smallest `i64` by the attacks.
pub open spec fn damage_fits(ships: Seq<Ship>, attacks: Seq<Attack>) -> bool {
    forall|i: int|
        0 <= i < ships.len() ==> ships[i].integrity - hits(attacks, #[trigger] ships[i].id@) >= i64::MIN
}

/// The roster after each ship lost one integrity per attack that strikes it.
pub open spec fn damaged(ships: Seq<Ship>, attacks: Seq<Attack>) -> Seq<Ship> {
    Seq::new(
        ships.len(),
        |i: int|
            Ship {
                id: ships[i].id,
                name: ships[i].name,
                fleet: ships[i].fleet,
                integrity: (ships[i].integrity - hits(attacks, ships[i].id@)) as i64,
            },
    )
}

/// Hits counted over a prefix of the attacks are at most those over all of them.
proof fn lemma_hits_prefix(attacks: Seq<Attack>, m: int, id: Seq<char>)
    requires
        0 <= m <= attacks.len(),
    ensures
        hits(attacks.take(m), id) <= hits(attacks, id),
    decreases attacks.len(),
{
    if m < attacks.len() {
        assert(attacks.drop_last().take(m) =~= attacks.take(m));
        lemma_hits_prefix(attacks.drop_last(), m, id);
    } else {
        assert(attacks.take(m) =~= attacks);
    }
}

/// Extending a prefix of the attacks by one counts that attack once.
proof fn lemma_hits_step(attacks: Seq<Attack>, k: int, id: Seq<char>)
    requires
        0 <= k < attacks.len(),
    ensures
        hits(attacks.take(k + 1), id) == hits(attacks.take(k), id) + if attacks[k].target@ == id {
            1nat
        } else {
            0nat
        },
{
    assert(attacks.take(k + 1).drop_last() =~= attacks.take(k));
}

/// The position of the first ship with id `id`, if any.
pub fn find_ship(ships: &Vec<Ship>, id: &String) -> (r: Option<usize>)
    ensures
        match r {
            Some(i) => i < ships.len() && ships@[i as int].id@ == id@ && forall|j: int|
                0 <= j < i ==> ships@[j].id@ != id@,
            None => !has_ship(ships@, id@),
        },
{
    let mut i: usize = 0;
    while i < ships.len()
        invariant
            i <= ships.len(),
            forall|j: int| 0 <= j < i ==> ships@[j].id@ != id@,
        decreases ships.len() - i,
    {
        if ships[i].id == *id {
            return Some(i);
        }
        i = i + 1;
    }
    None
}

/// Applies the attacks in order: each one lowers its target's integrity by 1.
/// Fails when an attack strikes a ship that is not in the roster; the
/// attacks before it have then been applied.
pub fn apply_damage(ships: &mut Vec<Ship>, attacks: &Vec<Attack>) -> (r: Result<(), TurnError>)
    requires
        unique_ids(old(ships)@),
        damage_fits(old(ships)@, attacks@),
    ensures
        r is Ok <==> targets_present(old(ships)@, attacks@),
        r is Ok ==> final(ships)@ == damaged(old(ships)@, attacks@),
{
    let ghost start = ships@;
    let mut k: usize = 0;
    while k < attacks.len()
        invariant
            k <= attacks.len(),
            start == old(ships)@,
            unique_ids(start),
            damage_fits(start, attacks@),
            ships.len() == start.len(),
            forall|i: int|
                0 <= i < start.len() ==> {
                    &&& #[trigger] ships@[i].id == start[i].id
                    &&& ships@[i].name == start[i].name
                    &&& ships@[i].fleet == start[i].fleet
                    &&& ships@[i].integrity == start[i].integrity - hits(
                        attacks@.take(k as int),
                        start[i].id@,
                    )
                },
            targets_present(start, attacks@.take(k as int)),
        decreases attacks.len() - k,
    {
        match find_ship(ships, &attacks[k].target) {
            None => {
                assert(!has_ship(start, attacks@[k as int].target@)) by {
                    if has_ship(start, attacks@[k as int].target@) {
                        let i = choose|i: int|
                            0 <= i < start.len() && start[i].id@ == attacks@[k as int].target@;
                        assert(ships@[i].id == start[i].id);
                    }
                }
                assert(!targets_present(start, attacks@));
                return Err(TurnError::MissingTarget);
            },
            Some(i) => {
                proof {
                    lemma_hits_step(attacks@, k as int, start[i as int].id@);
                    lemma_hits_prefix(attacks@, k + 1, start[i as int].id@);
                    assert(ships@[i as int].id == start[i as int].id);
                }
                let ghost prev = ships@;
                let v = ships[i].integrity - 1;
                ships[i].integrity = v;
                proof {
                    assert forall|j: int| 0 <= j < start.len() && j != i implies ships@[j].integrity
                        == start[j].integrity - hits(attacks@.take(k + 1), start[j].id@) by {
                        lemma_hits_step(attacks@, k as int, start[j].id@);
                        assert(ships@[j] == prev[j]);
                        assert(prev[j].id == start[j].id);
                        assert(start[j].id@ != start[i as int].id@);
                    }
                    assert forall|m: int| 0 <= m < k + 1 implies #[trigger] has_ship(
                        start,
                        attacks@.take(k + 1)[m].target@,
                    ) by {
                        if m < k {
                            assert(attacks@.take(k + 1)[m] == attacks@.take(k as int)[m]);
                        } else {
                            assert(start[i as int].id@ == attacks@[k as int].target@);
                        }
                    }
                }
            },
        }
        k = k + 1;
    }
    assert(attacks@.take(k as int) =~= attacks@);
    assert forall|i: int| 0 <= i < start.len() implies ships@[i] == damaged(start, attacks@)[i] by {
        assert(ships@[i].id == start[i].id);
    }
    assert(ships@ =~= damaged(start, attacks@));
    Ok(())
}

/// The ships of `ships` whose integrity is at least 1, in their order.
pub open spec fn survivors(ships: Seq<Ship>) -> Seq<Ship>
    decreases ships.len(),
{
    if ships.len() == 0 {
        ships
    } else {
        let rest = survivors(ships.drop_last());
        if ships.last().integrity >= 1 {
            rest.push(ships.last())
        } else {
            rest
        }
    }
}

/// A survivor is a ship of the roster with integrity at least 1, and every
/// such ship survives.
proof fn lemma_survivors(ships: Seq<Ship>)
    ensures
        survivors(ships).len() <= ships.len(),
        forall|j: int|
            0 <= j < survivors(ships).len() ==> #[trigger] survivors(ships)[j].integrity >= 1
                && exists|i: int| 0 <= i < ships.len() && ships[i] == survivors(ships)[j],
        forall|i: int|
            0 <= i < ships.len() && ships[i].integrity >= 1 ==> survivors(ships).contains(
                #[trigger] ships[i],
            ),
    decreases ships.len(),
{
    if ships.len() > 0 {
        let init = ships.drop_last();
        lemma_survivors(init);
        let rest = survivors(init);
        assert forall|j: int| 0 <= j < survivors(ships).len() implies #[trigger] survivors(
            ships,
        )[j].integrity >= 1 && exists|i: int| 0 <= i < ships.len() && ships[i] == survivors(ships)[j] by {
            if j < rest.len() {
                assert(survivors(ships)[j] == rest[j]);
                assert(rest[j].integrity >= 1);
                let i = choose|i: int| 0 <= i < init.len() && init[i] == rest[j];
                assert(ships[i] == init[i]);
            } else {
                assert(survivors(ships)[j] == ships[ships.len() - 1]);
            }
        }
        assert forall|i: int| 0 <= i < ships.len() && ships[i].integrity >= 1 implies survivors(
            ships,
        ).contains(#[trigger] ships[i]) by {
            if i < init.len() {
                assert(init[i] == ships[i]);
                let j = choose|j: int| 0 <= j < rest.len() && rest[j] == init[i];
                if ships.last().integrity >= 1 {
                    assert(survivors(ships)[j] == rest[j]);
                }
            } else {
                assert(survivors(ships)[rest.len() as int] == ships[i]);
            }
        }
    }
}

/// The destruction sweep: keeps the ships whose integrity is at least 1, in
/// their order.
pub fn sweep_destroyed(ships: &Vec<Ship>) -> (r: Vec<Ship>)
    ensures
        r@ == survivors(ships@),
{
    let mut kept: Vec<Ship> = Vec::new();
    let mut i: usize = 0;
    while i < ships.len()
        invariant
            i <= ships.len(),
            kept@ == survivors(ships@.take(i as int)),
        decreases ships.len() - i,
    {
        assert(ships@.take(i + 1).drop_last() =~= ships@.take(i as int));
        if ships[i].integrity >= 1 {
            kept.push(copy_ship(&ships[i]));
        }
        i = i + 1;
    }
    assert(ships@.take(i as int) =~= ships@);
    kept
}

/// Under the pairing policy each ship of a roster with unique ids is struck
/// by the first `n` attacks exactly when it is among the first `n` ships.
proof fn lemma_planned_hits_prefix(ships: Seq<Ship>, attacks: Seq<Attack>, n: int)
    requires
        unique_ids(ships),
        attack_view(attacks) == planned(ships),
        0 <= n <= ships.len(),
    ensures
        forall|i: int|
            0 <= i < ships.len() ==> hits(attacks.take(n), #[trigger] ships[i].id@) == if i < n {
                1nat
            } else {
                0nat
            },
    decreases n,
{
    assert(attacks.len() == attack_view(attacks).len());
    if n == 0 {
        assert forall|i: int| 0 <= i < ships.len() implies hits(attacks.take(0), #[trigger] ships[i].id@)
            == 0 by {
            assert(attacks.take(0).len() == 0);
        }
    } else {
        lemma_planned_hits_prefix(ships, attacks, n - 1);
        assert(attack_view(attacks)[n - 1] == planned(ships)[n - 1]);
        assert forall|i: int| 0 <= i < ships.len() implies hits(attacks.take(n), #[trigger] ships[i].id@)
            == if i < n {
            1nat
        } else {
            0nat
        } by {
            lemma_hits_step(attacks, n - 1, ships[i].id@);
        }
    }
}

/// Under the pairing policy, on a roster with unique ids, each ship is
/// struck exactly once and every attack strikes a ship of the roster.
proof fn lemma_planned_hits(ships: Seq<Ship>, attacks: Seq<Attack>)
    requires
        unique_ids(ships),
        attack_view(attacks) == planned(ships),
    ensures
        forall|i: int| 0 <= i < ships.len() ==> hits(attacks, #[trigger] ships[i].id@) == 1,
        targets_present(ships, attacks),
{
    assert(attacks.len() == attack_view(attacks).len());
    lemma_planned_hits_prefix(ships, attacks, ships.len() as int);
    assert(attacks.take(ships.len() as int) =~= attacks);
    assert forall|k: int| 0 <= k < attacks.len() implies #[trigger] has_ship(ships, attacks[k].target@) by {
        assert(attack_view(attacks)[k] == planned(ships)[k]);
    }
}

/// Survivors of a roster with unique ids have unique ids.
proof fn lemma_survivors_unique(ships: Seq<Ship>)
    requires
        unique_ids(ships),
    ensures
        unique_ids(survivors(ships)),
    decreases ships.len(),
{
    if ships.len() > 0 {
        let init = ships.drop_last();
        assert(unique_ids(init));
        lemma_survivors_unique(init);
        lemma_survivors(init);
        let rest = survivors(init);
        if ships.last().integrity >= 1 {
            assert forall|a: int, b: int|
                0 <= a < rest.len() + 1 && 0 <= b < rest.len() + 1 && a != b implies survivors(
                ships,
            )[a].id@ != survivors(ships)[b].id@ by {
                if a < rest.len() && b < rest.len() {
                    assert(survivors(ships)[a] == rest[a]);
                    assert(survivors(ships)[b] == rest[b]);
                } else {
                    let c = if a < rest.len() {
                        a
                    } else {
                        b
                    };
                    assert(survivors(ships)[c] == rest[c]);
                    assert(rest[c].integrity >= 1);
                    let i = choose|i: int| 0 <= i < init.len() && init[i] == rest[c];
                    assert(ships[i] == init[i]);
                }
            }
        }
    }
}

/// Every integrity is above the smallest `i64`, so it can be lowered by 1.
pub open spec fn above_floor(ships: Seq<Ship>) -> bool {
    forall|i: int| 0 <= i < ships.len() ==> #[trigger] ships[i].integrity > i64::MIN
}

/// The roster with every ship's integrity lowered by 1.
pub open spec fn weakened(ships: Seq<Ship>) -> Seq<Ship> {
    Seq::new(
        ships.len(),
        |i: int|
            Ship {
                id: ships[i].id,
                name: ships[i].name,
                fleet: ships[i].fleet,
                integrity: (ships[i].integrity - 1) as i64,
            },
    )
}

/// The roster after one turn: every ship loses one integrity, then those
/// below 1 are removed.
pub open spec fn next_roster(ships: Seq<Ship>) -> Seq<Ship> {
    survivors(weakened(ships))
}

/// Each ship of `after` is a ship of `before` with the same id, name and
/// fleet, and one integrity less.
pub open spec fn lost_one_each(before: Seq<Ship>, after: Seq<Ship>) -> bool {
    forall|j: int|
        0 <= j < after.len() ==> exists|i: int|
            0 <= i < before.len() && #[trigger] after[j].id@ == before[i].id@ && after[j].name@
                == before[i].name@ && after[j].fleet@ == before[i].fleet@ && after[j].integrity
                == before[i].integrity - 1
}

/// A ship of `before` is in `after` exactly when its integrity, lowered by
/// 1, is still at least 1.
pub open spec fn destroyed_removed(before: Seq<Ship>, after: Seq<Ship>) -> bool {
    forall|i: int|
        0 <= i < before.len() ==> (has_ship(after, #[trigger] before[i].id@) <==> before[i].integrity
            - 1 >= 1)
}

/// What one turn does to a roster with unique ids: the ids stay unique, each
/// remaining ship lost exactly one integrity, and exactly the ships that
/// fell below 1 are gone.
proof fn lemma_next_roster(ships: Seq<Ship>)
    requires
        unique_ids(ships),
        above_floor(ships),
    ensures
        unique_ids(next_roster(ships)),
        lost_one_each(ships, next_roster(ships)),
        destroyed_removed(ships, next_roster(ships)),
{
    let w = weakened(ships);
    let next = next_roster(ships);
    assert(unique_ids(w));
    lemma_survivors(w);
    lemma_survivors_unique(w);
    assert forall|j: int| 0 <= j < next.len() implies exists|i: int|
        0 <= i < ships.len() && #[trigger] next[j].id@ == ships[i].id@ && next[j].name@
            == ships[i].name@ && next[j].fleet@ == ships[i].fleet@ && next[j].integrity
            == ships[i].integrity - 1 by {
        assert(next[j].integrity >= 1);
        let i = choose|i: int| 0 <= i < w.len() && w[i] == next[j];
        assert(ships[i].integrity > i64::MIN);
    }
    assert forall|i: int| 0 <= i < ships.len() implies (has_ship(next, #[trigger] ships[i].id@)
        <==> ships[i].integrity - 1 >= 1) by {
        assert(ships[i].integrity > i64::MIN);
        assert(w[i].id@ == ships[i].id@);
        if ships[i].integrity - 1 >= 1 {
            assert(next.contains(w[i]));
            let j = choose|j: int| 0 <= j < next.len() && next[j] == w[i];
            assert(next[j].id@ == ships[i].id@);
        }
        if has_ship(next, ships[i].id@) {
            let j = choose|j: int| 0 <= j < next.len() && next[j].id@ == ships[i].id@;
            assert(next[j].integrity >= 1);
            let k = choose|k: int| 0 <= k < w.len() && w[k] == next[j];
            assert(w[k].id@ == w[i].id@);
        }
    }
}

/// Ships that only lose integrity or leave keep naming existing fleets.
proof fn lemma_next_roster_fleets(ships: Seq<Ship>, fleets: Seq<Fleet>)
    requires
        fleets_consistent(ships, fleets),
    ensures
        fleets_consistent(next_roster(ships), fleets),
{
    let w = weakened(ships);
    lemma_survivors(w);
    assert forall|j: int| 0 <= j < next_roster(ships).len() implies #[trigger] has_fleet(
        fleets,
        next_roster(ships)[j].fleet@,
    ) by {
        assert(next_roster(ships)[j].integrity >= 1);
        let i = choose|i: int| 0 <= i < w.len() && w[i] == next_roster(ships)[j];
        assert(has_fleet(fleets, ships[i].fleet@));
    }
}

/// Whether `turn` may run on `store`: ship ids are unique, the roster is
/// small enough to number its attacks, and every integrity can be lowered.
pub open spec fn turn_ready(store: Store) -> bool {
    &&& store.wf()
    &&& store.ships@.len() < i64::MAX
    &&& above_floor(store.ships@)
}

/// Tests `turn_ready`.
pub fn can_take_turn(store: &Store) -> (r: bool)
    ensures
        r == turn_ready(*store),
{
    let ships = &store.ships;
    if ships.len() as u128 >= i64::MAX as u128 {
        return false;
    }
    let mut i: usize = 0;
    while i < ships.len()
        invariant
            ships@ == store.ships@,
            i <= ships.len(),
            above_floor(ships@.take(i as int)),
            forall|a: int, b: int|
                0 <= a < i && 0 <= b < ships.len() && a != b ==> ships@[a].id@ != ships@[b].id@,
        decreases ships.len() - i,
    {
        if ships[i].integrity == i64::MIN {
            assert(!above_floor(ships@)) by {
                assert(!(ships@[i as int].integrity > i64::MIN));
            }
            return false;
        }
        let mut j: usize = 0;
        while j < ships.len()
            invariant
                ships@ == store.ships@,
                i < ships.len(),
                j <= ships.len(),
                forall|b: int| 0 <= b < j && b != i ==> ships@[i as int].id@ != ships@[b].id@,
            decreases ships.len() - j,
        {
            if j != i && ships[i].id == ships[j].id {
                assert(!unique_ids(ships@)) by {
                    assert(ships@[i as int].id@ == ships@[j as int].id@);
                }
                return false;
            }
            j = j + 1;
        }
        assert forall|k: int| 0 <= k < i + 1 implies #[trigger] ships@.take(i + 1)[k].integrity
            > i64::MIN by {
            if k < i {
                assert(ships@.take(i + 1)[k] == ships@.take(i as int)[k]);
            }
        }
        i = i + 1;
    }
    assert(ships@.take(i as int) =~= ships@);
    true
}

/// One turn of the simulation. The attack table is replaced by one attack
/// per ship (ship `k` is the target of attack `k + 1`), each attack lowers
/// its target's integrity by 1, the ships below 1 are removed, and the game
/// is complete when fewer than two ships remain.
pub fn turn(store: &mut Store) -> (r: Outcome)
    requires
        turn_ready(*old(store)),
    ensures
        final(store).wf(),
        final(store).fleets@ == old(store).fleets@,
        attack_view(final(store).attacks@) == planned(old(store).ships@),
        final(store).attacks@.len() == old(store).ships@.len(),
        final(store).ships@ == next_roster(old(store).ships@),
        lost_one_each(old(store).ships@, final(store).ships@),
        destroyed_removed(old(store).ships@, final(store).ships@),
        fleets_consistent(old(store).ships@, old(store).fleets@) ==> fleets_consistent(
            final(store).ships@,
            final(store).fleets@,
        ),
        r == Outcome::Complete <==> final(store).ships@.len() < 2,
{
    let ghost start = store.ships@;
    store.attacks = plan_attacks(&store.ships);
    proof {
        lemma_planned_hits(start, store.attacks@);
        assert(store.attacks@.len() == attack_view(store.attacks@).len());
    }
    let _ = apply_damage(&mut store.ships, &store.attacks);
    assert(store.ships@ =~= weakened(start));
    store.ships = sweep_destroyed(&store.ships);
    proof {
        lemma_next_roster(start);
        if fleets_consistent(start, store.fleets@) {
            lemma_next_roster_fleets(start, store.fleets@);
        }
    }
    if store.ships.len() < 2 {
        Outcome::Complete
    } else {
        Outcome::Continue
    }
}

/// Integrity of every ship of the starting roster.
pub const STARTING_INTEGRITY: i64 = 10;

/// Why the starting roster could not be laid out.
#[derive(Debug, Clone, Copy, PartialEq, Eq, Structural)]
pub enum ResetError {
    /// Two ships, or two fleets, were given the same id.
    DuplicateId,
}

/// The starting roster: two fleets, "Starfleet" and "Klingon Imperial
/// Fleet", and one ship in each, "USS Enterprise" and "Klingon Warbird",
/// both at full integrity; ship ids and fleet ids are distinct.
pub open spec fn is_starting_roster(ships: Seq<Ship>, fleets: Seq<Fleet>) -> bool {
    &&& fleets.len() == 2
    &&& ships.len() == 2
    &&& fleets[0].name@ == "Starfleet"@
    &&& fleets[1].name@ == "Klingon Imperial Fleet"@
    &&& ships[0].name@ == "USS Enterprise"@
    &&& ships[1].name@ == "Klingon Warbird"@
    &&& ships[0].fleet@ == fleets[0].id@
    &&& ships[1].fleet@ == fleets[1].id@
    &&& ships[0].integrity == STARTING_INTEGRITY
    &&& ships[1].integrity == STARTING_INTEGRITY
    &&& ships[0].id@ != ships[1].id@
    &&& fleets[0].id@ != fleets[1].id@
}

/// Relies on uuid's `Uuid::new_v7` with `Timestamp::now`: a fresh
/// time-ordered identifier, written in the 36-character hyphenated form.
#[verifier::external_body]
fn id() -> (r: String)
    ensures
        r@.len() == 36,
{
    Uuid::new_v7(Timestamp::now(NoContext)).to_string()
}

/// Clears the ships and fleets of `store` and lays out the starting roster
/// with the given ids. Fails, leaving `store` as it was, when the two ship
/// ids or the two fleet ids coincide.
pub fn reset_with_ids(
    store: &mut Store,
    ship_a: String,
    ship_b: String,
    fleet_a: String,
    fleet_b: String,
) -> (r: Result<(), ResetError>)
    ensures
        r is Err <==> (ship_a@ == ship_b@ || fleet_a@ == fleet_b@),
        r is Err ==> *final(store) == *old(store),
        r is Ok ==> {
            &&& final(store).wf()
            &&& is_starting_roster(final(store).ships@, final(store).fleets@)
            &&& fleets_consistent(final(store).ships@, final(store).fleets@)
            &&& final(store).ships@[0].id@ == ship_a@
            &&& final(store).ships@[1].id@ == ship_b@
            &&& final(store).fleets@[0].id@ == fleet_a@
            &&& final(store).fleets@[1].id@ == fleet_b@
            &&& final(store).attacks@ == old(store).attacks@
        },
{
    if ship_a == ship_b || fleet_a == fleet_b {
        return Err(ResetError::DuplicateId);
    }
    let mut fleets: Vec<Fleet> = Vec::new();
    fleets.push(Fleet { id: fleet_a.clone(), name: "Starfleet".to_owned() });
    fleets.push(Fleet { id: fleet_b.clone(), name: "Klingon Imperial Fleet".to_owned() });
    let mut ships: Vec<Ship> = Vec::new();
    ships.push(
        Ship {
            id: ship_a,
            name: "USS Enterprise".to_owned(),
            fleet: fleet_a,
            integrity: STARTING_INTEGRITY,
        },
    );
    ships.push(
        Ship {
            id: ship_b,
            name: "Klingon Warbird".to_owned(),
            fleet: fleet_b,
            integrity: STARTING_INTEGRITY,
        },
    );
    store.fleets = fleets;
    store.ships = ships;
    assert(store.fleets@[0].id@ == store.ships@[0].fleet@);
    assert(store.fleets@[1].id@ == store.ships@[1].fleet@);
    assert(has_fleet(store.fleets@, store.ships@[0].fleet@));
    assert(has_fleet(store.fleets@, store.ships@[1].fleet@));
    Ok(())
}

/// Clears the ships and fleets of `store` and lays out the starting roster,
/// each ship and fleet under a freshly generated id. Should two fresh ids
/// coincide, it fails and leaves `store` as it was.
pub fn reset(store: &mut Store) -> (r: Result<(), ResetError>)
    ensures
        r is Err ==> *final(store) == *old(store),
        r is Ok ==> {
            &&& final(store).wf()
            &&& is_starting_roster(final(store).ships@, final(store).fleets@)
            &&& fleets_consistent(final(store).ships@, final(store).fleets@)
            &&& final(store).attacks@ == old(store).attacks@
        },
{
    let ship_a = id();
    let ship_b = id();
    let fleet_a = id();
    let fleet_b = id();
    reset_with_ids(store, ship_a, ship_b, fleet_a, fleet_b)
}

/// Resetting is repeatable: any two starting rosters have the same size and
/// the same integrities, ship by ship; only the ids may differ.
pub proof fn lemma_reset_repeatable(
    first_ships: Seq<Ship>,
    first_fleets: Seq<Fleet>,
    second_ships: Seq<Ship>,
    second_fleets: Seq<Fleet>,
)
    requires
        is_starting_roster(first_ships, first_fleets),
        is_starting_roster(second_ships, second_fleets),
    ensures
        first_ships.len() == second_ships.len(),
        first_fleets.len() == second_fleets.len(),
        forall|i: int|
            0 <= i < first_ships.len() ==> #[trigger] first_ships[i].integrity
                == second_ships[i].integrity && first_ships[i].name@ == second_ships[i].name@,
{
    assert forall|i: int| 0 <= i < first_ships.len() implies #[trigger] first_ships[i].integrity
        == second_ships[i].integrity && first_ships[i].name@ == second_ships[i].name@ by {
        if i == 0 {
        } else {
            assert(i == 1);
        }
    }
}

} // verus!
