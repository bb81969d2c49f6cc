//! What is shown after each turn: one row per ship, with its fleet's name.
use vstd::prelude::*;
use crate::combat::{Fleet, Ship, Store, fleets_consistent, has_fleet};

verus! {

/// Integrity below this is low health, flagged when shown.
pub const LOW_INTEGRITY: i64 = 4;

/// One line of the status table.
#[derive(Debug, Clone, PartialEq, Eq)]
pub struct StatusRow {
    pub fleet: String,
    pub name: String,
    pub integrity: i64,
    pub low: bool,
}

/// Whether `integrity` is low health.
pub fn is_low_integrity(integrity: i64) -> (r: bool)
    ensures
        r == (integrity < LOW_INTEGRITY),
{
    integrity < LOW_INTEGRITY
}

/// `j` is the first fleet with id `id`.
pub open spec fn first_fleet(fleets: Seq<Fleet>, id: Seq<char>, j: int) -> bool {
    &&& 0 <= j < fleets.len()
    &&& fleets[j].id@ == id
    &&& forall|k: int| 0 <= k < j ==> fleets[k].id@ != id
}

/// `row` shows `ship`: its name, its integrity, whether that is low, and
/// the name of the first fleet with the ship's fleet id.
pub open spec fn shows(row: StatusRow, ship: Ship, fleets: Seq<Fleet>) -> bool {
    &&& row.name@ == ship.name@
    &&& row.integrity == ship.integrity
    &&& row.low == (ship.integrity < LOW_INTEGRITY)
    &&& exists|j: int| first_fleet(fleets, ship.fleet@, j) && row.fleet@ == fleets[j].name@
}

/// The position of the first fleet with id `id`, if any.
pub fn find_fleet(fleets: &Vec<Fleet>, id: &String) -> (r: Option<usize>)
    ensures
        match r {
            Some(j) => first_fleet(fleets@, id@, j as int),
            None => !has_fleet(fleets@, id@),
        },
{
    let mut j: usize = 0;
    while j < fleets.len()
        invariant
            j <= fleets.len(),
            forall|k: int| 0 <= k < j ==> fleets@[k].id@ != id@,
        decreases fleets.len() - j,
    {
        if fleets[j].id == *id {
            return Some(j);
        }
        j = j + 1;
    }
    None
}

/// The status table of `store`: row `i` shows ship `i` with the name of its
/// fleet. There is none when some ship names a fleet that does not exist.
pub fn status_rows(store: &Store) -> (r: Option<Vec<StatusRow>>)
    ensures
        r is None <==> !fleets_consistent(store.ships@, store.fleets@),
        r matches Some(rows) ==> {
            &&& rows@.len() == store.ships@.len()
            &&& forall|i: int|
                0 <= i < rows@.len() ==> shows(#[trigger] rows@[i], store.ships@[i], store.fleets@)
        },
{
    let mut rows: Vec<StatusRow> = Vec::new();
    let mut i: usize = 0;
    while i < store.ships.len()
        invariant
            i <= store.ships.len(),
            rows@.len() == i,
            forall|k: int| 0 <= k < i ==> #[trigger] has_fleet(store.fleets@, store.ships@[k].fleet@),
            forall|k: int|
                0 <= k < i ==> shows(#[trigger] rows@[k], store.ships@[k], store.fleets@),
        decreases store.ships.len() - i,
    {
        let ship = &store.ships[i];
        match find_fleet(&store.fleets, &ship.fleet) {
            None => {
                assert(!has_fleet(store.fleets@, store.ships@[i as int].fleet@));
                return None;
            },
            Some(j) => {
                let row = StatusRow {
                    fleet: store.fleets[j].name.clone(),
                    name: ship.name.clone(),
                    integrity: ship.integrity,
                    low: is_low_integrity(ship.integrity),
                };
                let ghost prev = rows@;
                rows.push(row);
                assert forall|k: int| 0 <= k < i + 1 implies shows(#[trigger] rows@[k], store.ships@[k], store.fleets@) by {
                    if k < i {
                        assert(rows@[k] == prev[k]);
                    } else {
                        assert(first_fleet(store.fleets@, store.ships@[k].fleet@, j as int));
                    }
                }
            },
        }
        i = i + 1;
    }
    Some(rows)
}

} // verus!
