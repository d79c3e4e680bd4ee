use protocore::store::Store;

#[test]
fn store_first_observation_yields_nothing() {
    let mut store = Store::new();
    assert!(store.record(&b"UN1X".to_vec(), 1, 0, 0, 60).is_none());
}

#[test]
fn store_ticket_against_predecessor() {
    let mut store = Store::new();
    let plate = b"UN1X".to_vec();
    assert!(store.record(&plate, 1, 0, 0, 60).is_none());
    let t = store.record(&plate, 1, 40, 1, 60).expect("a ticket is due");
    assert_eq!(t.plate, plate);
    assert_eq!(t.road, 1);
    assert_eq!(t.mile1, 0);
    assert_eq!(t.timestamp1, 0);
    assert_eq!(t.mile2, 1);
    assert_eq!(t.timestamp2, 40);
    assert_eq!(t.speed, 9000);
}

#[test]
fn store_ticket_against_successor() {
    let mut store = Store::new();
    let plate = b"XY34".to_vec();
    assert!(store.record(&plate, 5, 100, 0, 60).is_none());
    // the new observation precedes the stored one chronologically
    let t = store.record(&plate, 5, 40, 60, 60).expect("a ticket is due");
    assert_eq!(t.timestamp1, 40);
    assert_eq!(t.mile1, 60);
    assert_eq!(t.timestamp2, 100);
    assert_eq!(t.mile2, 0);
}

#[test]
fn store_one_ticket_per_day() {
    let mut store = Store::new();
    let plate = b"UN1X".to_vec();
    assert!(store.record(&plate, 1, 0, 0, 60).is_none());
    assert!(store.record(&plate, 1, 40, 1, 60).is_some());
    // a second, even worse violation the same day is not re-evaluated
    assert!(store.record(&plate, 1, 80, 5, 60).is_none());
    // nor on another road that day
    assert!(store.record(&plate, 2, 1000, 0, 60).is_none());
    assert!(store.record(&plate, 2, 1040, 3, 60).is_none());
}

#[test]
fn store_new_day_new_ticket() {
    let mut store = Store::new();
    let plate = b"UN1X".to_vec();
    assert!(store.record(&plate, 1, 0, 0, 60).is_none());
    assert!(store.record(&plate, 1, 40, 1, 60).is_some());
    // two observations on the next calendar day
    assert!(store.record(&plate, 1, 86400, 100, 60).is_none());
    assert!(store.record(&plate, 1, 86440, 101, 60).is_some());
}

#[test]
fn store_days_are_independent_per_plate() {
    let mut store = Store::new();
    assert!(store.record(&b"AAAA".to_vec(), 1, 0, 0, 60).is_none());
    assert!(store.record(&b"AAAA".to_vec(), 1, 40, 1, 60).is_some());
    // another plate on the same road and day is still evaluated
    assert!(store.record(&b"BBBB".to_vec(), 1, 0, 0, 60).is_none());
    assert!(store.record(&b"BBBB".to_vec(), 1, 40, 1, 60).is_some());
}

#[test]
fn store_overwrites_an_entry_at_the_same_timestamp() {
    let mut store = Store::new();
    let plate = b"OVWR".to_vec();
    assert!(store.record(&plate, 4, 0, 0, 60).is_none());
    // a later insert at the same timestamp replaces the mile reading
    assert!(store.record(&plate, 4, 0, 100, 60).is_none());
    // one hour later at the same mile: against the overwritten entry the
    // speed is zero, so no ticket; the first entry is gone
    assert!(store.record(&plate, 4, 3600, 100, 60).is_none());
}

#[test]
fn store_out_of_order_insert_pairs_with_both_neighbours() {
    let mut store = Store::new();
    let plate = b"MIDL".to_vec();
    assert!(store.record(&plate, 1, 0, 0, 60).is_none());
    // two hours later, two miles on: one mile per hour on average
    assert!(store.record(&plate, 1, 7200, 2, 60).is_none());
    // an observation between them shows 90 mph over the first hour
    let t = store.record(&plate, 1, 3600, 90, 60).expect("a ticket is due");
    assert_eq!(t.timestamp1, 0);
    assert_eq!(t.timestamp2, 3600);
    assert_eq!(t.speed, 9000);
}
