use fleet_combat::combat::{copy_ship, Attack, Fleet, Ship, Store};
use fleet_combat::game::{
    apply_damage, can_take_turn, find_ship, plan_attacks, reset, reset_with_ids, sweep_destroyed, turn, Outcome,
    ResetError, TurnError, STARTING_INTEGRITY,
};

fn ship(id: &str, fleet: &str, integrity: i64) -> Ship {
    Ship { id: id.to_string(), name: format!("ship {id}"), fleet: fleet.to_string(), integrity }
}

fn store_of(ships: Vec<Ship>) -> Store {
    let mut store = Store::new();
    store.ships = ships;
    store
}

fn integrities(store: &Store) -> Vec<i64> {
    store.ships.iter().map(|s| s.integrity).collect()
}

#[test]
fn scenario_integrities_one_and_two() {
    let mut store = store_of(vec![ship("a", "", 1), ship("b", "", 2)]);
    let outcome = turn(&mut store);
    assert_eq!(outcome, Outcome::Complete);
    assert_eq!(store.ships.len(), 1);
    assert_eq!(store.ships[0].id, "b");
    assert_eq!(store.ships[0].integrity, 1);
}

#[test]
fn scenario_two_fleets_at_ten() {
    let mut store = Store::new();
    reset_with_ids(
        &mut store,
        "s1".to_string(),
        "s2".to_string(),
        "f1".to_string(),
        "f2".to_string(),
    )
    .unwrap();
    assert_ne!(store.ships[0].fleet, store.ships[1].fleet);
    assert_eq!(turn(&mut store), Outcome::Continue);
    assert_eq!(integrities(&store), vec![9, 9]);
    for _ in 0..8 {
        assert_eq!(turn(&mut store), Outcome::Continue);
    }
    assert_eq!(integrities(&store), vec![1, 1]);
    assert_eq!(turn(&mut store), Outcome::Complete);
    assert!(store.ships.is_empty());
}

#[test]
fn scenario_single_ship_still_takes_damage() {
    let mut store = store_of(vec![ship("solo", "", 5)]);
    assert_eq!(turn(&mut store), Outcome::Complete);
    assert_eq!(store.attacks.len(), 1);
    assert_eq!(store.attacks[0], Attack { id: 1, target: "solo".to_string() });
    assert_eq!(integrities(&store), vec![4]);
}

#[test]
fn turn_on_empty_roster_is_complete() {
    let mut store = store_of(vec![]);
    store.attacks = vec![Attack { id: 7, target: "gone".to_string() }];
    assert_eq!(turn(&mut store), Outcome::Complete);
    assert!(store.attacks.is_empty());
    assert!(store.ships.is_empty());
}

#[test]
fn one_attack_per_ship_at_turn_start() {
    let mut store = store_of(vec![ship("a", "", 3), ship("b", "", 1), ship("c", "", 8)]);
    turn(&mut store);
    let attacks: Vec<(i64, String)> = store.attacks.iter().map(|a| (a.id, a.target.clone())).collect();
    assert_eq!(
        attacks,
        vec![(1, "a".to_string()), (2, "b".to_string()), (3, "c".to_string())]
    );
}

#[test]
fn survivors_lose_exactly_one() {
    let mut store = store_of(vec![ship("a", "x", 3), ship("b", "y", 1), ship("c", "x", 8)]);
    let outcome = turn(&mut store);
    assert_eq!(outcome, Outcome::Continue);
    assert_eq!(store.ships, vec![ship("a", "x", 2), ship("c", "x", 7)]);
}

#[test]
fn destroyed_ships_are_removed() {
    let mut store = store_of(vec![ship("a", "", 0), ship("b", "", 1), ship("c", "", -3), ship("d", "", 2)]);
    let outcome = turn(&mut store);
    assert_eq!(outcome, Outcome::Complete);
    let ids: Vec<&str> = store.ships.iter().map(|s| s.id.as_str()).collect();
    assert_eq!(ids, vec!["d"]);
}

#[test]
fn turn_keeps_fleets() {
    let mut store = store_of(vec![ship("a", "f", 4), ship("b", "f", 4)]);
    store.fleets = vec![Fleet { id: "f".to_string(), name: "Home".to_string() }];
    assert_eq!(turn(&mut store), Outcome::Continue);
    assert_eq!(store.fleets, vec![Fleet { id: "f".to_string(), name: "Home".to_string() }]);
}

#[test]
fn plan_numbers_attacks_from_one() {
    let ships = vec![ship("p", "", 1), ship("q", "", 1)];
    let attacks = plan_attacks(&ships);
    assert_eq!(
        attacks,
        vec![
            Attack { id: 1, target: "p".to_string() },
            Attack { id: 2, target: "q".to_string() }
        ]
    );
    assert!(plan_attacks(&vec![]).is_empty());
}

#[test]
fn damage_accumulates_on_shared_target() {
    let mut ships = vec![ship("a", "", 5), ship("b", "", 5)];
    let attacks = vec![
        Attack { id: 1, target: "b".to_string() },
        Attack { id: 2, target: "b".to_string() },
        Attack { id: 3, target: "a".to_string() },
    ];
    assert_eq!(apply_damage(&mut ships, &attacks), Ok(()));
    assert_eq!(ships, vec![ship("a", "", 4), ship("b", "", 3)]);
}

#[test]
fn damage_with_missing_target_fails() {
    let mut ships = vec![ship("a", "", 5)];
    let attacks = vec![
        Attack { id: 1, target: "a".to_string() },
        Attack { id: 2, target: "nobody".to_string() },
    ];
    assert_eq!(apply_damage(&mut ships, &attacks), Err(TurnError::MissingTarget));
}

#[test]
fn sweep_keeps_order_of_survivors() {
    let ships = vec![ship("a", "", 2), ship("b", "", 0), ship("c", "", 1), ship("d", "", -1)];
    let kept = sweep_destroyed(&ships);
    assert_eq!(kept, vec![ship("a", "", 2), ship("c", "", 1)]);
}

#[test]
fn find_ship_by_id() {
    let ships = vec![ship("a", "", 2), ship("b", "", 0)];
    assert_eq!(find_ship(&ships, &"b".to_string()), Some(1));
    assert_eq!(find_ship(&ships, &"z".to_string()), None);
}

#[test]
fn copy_ship_is_equal() {
    let s = ship("a", "f", 6);
    assert_eq!(copy_ship(&s), s);
}

#[test]
fn reset_lays_out_starting_roster() {
    let mut store = store_of(vec![ship("old", "", 3)]);
    store.attacks = vec![Attack { id: 1, target: "old".to_string() }];
    reset(&mut store).unwrap();
    assert_eq!(store.fleets.len(), 2);
    assert_eq!(store.fleets[0].name, "Starfleet");
    assert_eq!(store.fleets[1].name, "Klingon Imperial Fleet");
    assert_eq!(store.ships.len(), 2);
    assert_eq!(store.ships[0].name, "USS Enterprise");
    assert_eq!(store.ships[1].name, "Klingon Warbird");
    assert_eq!(store.ships[0].fleet, store.fleets[0].id);
    assert_eq!(store.ships[1].fleet, store.fleets[1].id);
    assert_eq!(integrities(&store), vec![STARTING_INTEGRITY, STARTING_INTEGRITY]);
    assert_eq!(store.attacks.len(), 1);
}

#[test]
fn reset_generates_distinct_uuid_ids() {
    let mut store = Store::new();
    reset(&mut store).unwrap();
    let ids = [&store.ships[0].id, &store.ships[1].id, &store.fleets[0].id, &store.fleets[1].id];
    for id in ids {
        assert_eq!(id.len(), 36);
        assert_eq!(id.matches('-').count(), 4);
    }
    assert_ne!(store.ships[0].id, store.ships[1].id);
    assert_ne!(store.fleets[0].id, store.fleets[1].id);
}

#[test]
fn reset_twice_gives_same_roster_shape() {
    let mut store = Store::new();
    reset(&mut store).unwrap();
    let first_ids: Vec<String> = store.ships.iter().map(|s| s.id.clone()).collect();
    let first = integrities(&store);
    reset(&mut store).unwrap();
    assert_eq!(store.ships.len(), 2);
    assert_eq!(store.fleets.len(), 2);
    assert_eq!(integrities(&store), first);
    let second_ids: Vec<String> = store.ships.iter().map(|s| s.id.clone()).collect();
    assert_ne!(first_ids, second_ids);
}

#[test]
fn reset_with_duplicate_ids_fails_and_keeps_store() {
    let mut store = store_of(vec![ship("keep", "", 3)]);
    let r = reset_with_ids(
        &mut store,
        "same".to_string(),
        "same".to_string(),
        "f1".to_string(),
        "f2".to_string(),
    );
    assert_eq!(r, Err(ResetError::DuplicateId));
    let r = reset_with_ids(
        &mut store,
        "s1".to_string(),
        "s2".to_string(),
        "f".to_string(),
        "f".to_string(),
    );
    assert_eq!(r, Err(ResetError::DuplicateId));
    assert_eq!(store.ships, vec![ship("keep", "", 3)]);
    assert!(store.fleets.is_empty());
}

#[test]
fn turn_readiness_checks() {
    assert!(can_take_turn(&store_of(vec![ship("a", "", 1), ship("b", "", 2)])));
    assert!(can_take_turn(&store_of(vec![])));
    assert!(!can_take_turn(&store_of(vec![ship("a", "", 1), ship("a", "", 2)])));
    assert!(!can_take_turn(&store_of(vec![ship("a", "", 1), ship("b", "", i64::MIN)])));
}
