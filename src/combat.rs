//! The entity model: ships, fleets and the per-turn attack records.
use vstd::prelude::*;

verus! {

/// A combat unit. It is destroyed once `integrity` drops below 1.
#[derive(Debug, Clone, PartialEq, Eq, Default)]
pub struct Ship {
    pub id: String,
    pub name: String,
    pub fleet: String,
    pub integrity: i64,
}

/// One attack slot of the current turn, striking the ship `target`.
#[derive(Debug, Clone, PartialEq, Eq, Default)]
pub struct Attack {
    pub id: i64,
    pub target: String,
}

/// A named faction that ships belong to.
#[derive(Debug, Clone, PartialEq, Eq, Default)]
pub struct Fleet {
    pub id: String,
    pub name: String,
}

/// No two ships share an id.
pub open spec fn unique_ids(ships: Seq<Ship>) -> bool {
    forall|i: int, j: int|
        0 <= i < ships.len() && 0 <= j < ships.len() && i != j ==> ships[i].id@ != ships[j].id@
}

/// Some ship carries the id `id`.
pub open spec fn has_ship(ships: Seq<Ship>, id: Seq<char>) -> bool {
    exists|i: int| 0 <= i < ships.len() && ships[i].id@ == id
}

/// Some fleet carries the id `id`.
pub open spec fn has_fleet(fleets: Seq<Fleet>, id: Seq<char>) -> bool {
    exists|j: int| 0 <= j < fleets.len() && fleets[j].id@ == id
}

/// Every ship names a fleet that exists.
pub open spec fn fleets_consistent(ships: Seq<Ship>, fleets: Seq<Fleet>) -> bool {
    forall|i: int| 0 <= i < ships.len() ==> #[trigger] has_fleet(fleets, ships[i].fleet@)
}

/// Everything the simulation keeps between turns: the three tables.
pub struct Store {
    pub fleets: Vec<Fleet>,
    pub ships: Vec<Ship>,
    pub attacks: Vec<Attack>,
}

impl Store {
    /// Ship ids are unique.
    pub open spec fn wf(&self) -> bool {
        unique_ids(self.ships@)
    }

    /// A store with no fleets, ships or attacks.
    pub fn new() -> (r: Store)
        ensures
            r.wf(),
            r.fleets@.len() == 0,
            r.ships@.len() == 0,
            r.attacks@.len() == 0,
    {
        Store { fleets: Vec::new(), ships: Vec::new(), attacks: Vec::new() }
    }
}

/// A copy of `s`, field by field.
pub fn copy_ship(s: &Ship) -> (r: Ship)
    ensures
        r == *s,
{
    Ship { id: s.id.clone(), name: s.name.clone(), fleet: s.fleet.clone(), integrity: s.integrity }
}

} // verus!
