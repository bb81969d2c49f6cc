use fleet_combat::combat::{Fleet, Ship, Store};
use fleet_combat::random::{percent, RandomSource};
use fleet_combat::status::{find_fleet, is_low_integrity, status_rows, StatusRow, LOW_INTEGRITY};

fn fleet(id: &str, name: &str) -> Fleet {
    Fleet { id: id.to_string(), name: name.to_string() }
}

fn ship(id: &str, fleet: &str, integrity: i64) -> Ship {
    Ship { id: id.to_string(), name: format!("ship {id}"), fleet: fleet.to_string(), integrity }
}

#[test]
fn low_integrity_threshold() {
    assert_eq!(LOW_INTEGRITY, 4);
    assert!(is_low_integrity(3));
    assert!(is_low_integrity(0));
    assert!(!is_low_integrity(4));
    assert!(!is_low_integrity(10));
}

#[test]
fn find_fleet_takes_first_match() {
    let fleets = vec![fleet("a", "A"), fleet("b", "B1"), fleet("b", "B2")];
    assert_eq!(find_fleet(&fleets, &"b".to_string()), Some(1));
    assert_eq!(find_fleet(&fleets, &"c".to_string()), None);
}

#[test]
fn status_rows_name_fleets() {
    let mut store = Store::new();
    store.fleets = vec![fleet("f1", "Starfleet"), fleet("f2", "Klingon Imperial Fleet")];
    store.ships = vec![ship("a", "f2", 9), ship("b", "f1", 2)];
    let rows = status_rows(&store).unwrap();
    assert_eq!(
        rows,
        vec![
            StatusRow {
                fleet: "Klingon Imperial Fleet".to_string(),
                name: "ship a".to_string(),
                integrity: 9,
                low: false
            },
            StatusRow { fleet: "Starfleet".to_string(), name: "ship b".to_string(), integrity: 2, low: true },
        ]
    );
}

#[test]
fn status_rows_need_existing_fleets() {
    let mut store = Store::new();
    store.fleets = vec![fleet("f1", "Starfleet")];
    store.ships = vec![ship("a", "f1", 9), ship("b", "missing", 2)];
    assert_eq!(status_rows(&store), None);
}

#[test]
fn percent_stays_in_range() {
    let mut source = RandomSource::new();
    let mut seen_low = false;
    let mut seen_high = false;
    for _ in 0..20000 {
        let p = percent(&mut source);
        assert!((1..=100).contains(&p));
        seen_low |= p <= 10;
        seen_high |= p > 90;
    }
    assert!(seen_low && seen_high);
}
