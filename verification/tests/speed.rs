use protocore::speed::evaluate;

#[test]
fn speed_ticket_at_ninety_in_a_sixty() {
    // one mile in forty seconds is 90 mph against a 60 mph limit
    let plate = b"UN1X".to_vec();
    let t = evaluate(&plate, 1, 0, 0, 40, 1, 60).expect("a ticket is due");
    assert_eq!(t.plate, b"UN1X".to_vec());
    assert_eq!(t.road, 1);
    assert_eq!(t.mile1, 0);
    assert_eq!(t.timestamp1, 0);
    assert_eq!(t.mile2, 1);
    assert_eq!(t.timestamp2, 40);
    assert_eq!(t.speed, 9000);
}

#[test]
fn speed_orders_the_pair_chronologically() {
    let plate = b"UN1X".to_vec();
    let t = evaluate(&plate, 1, 40, 1, 0, 0, 60).expect("a ticket is due");
    assert_eq!(t.timestamp1, 0);
    assert_eq!(t.mile1, 0);
    assert_eq!(t.timestamp2, 40);
    assert_eq!(t.mile2, 1);
    assert_eq!(t.speed, 9000);
}

#[test]
fn speed_identical_timestamps_yield_nothing() {
    // no elapsed time: no speed can be determined, and no crash
    let plate = b"UN1X".to_vec();
    assert!(evaluate(&plate, 1, 100, 0, 100, 50, 1).is_none());
}

#[test]
fn speed_half_mph_tolerance_boundary() {
    // 121 miles in 7200 seconds is exactly 60.5 mph: ticketed in a 60
    let plate = b"AB12".to_vec();
    let t = evaluate(&plate, 3, 0, 0, 7200, 121, 60).expect("a ticket is due");
    assert_eq!(t.speed, 6050);
    // one second slower is under the band: no ticket
    assert!(evaluate(&plate, 3, 0, 0, 7201, 121, 60).is_none());
}

#[test]
fn speed_at_the_limit_yields_nothing() {
    // exactly 60 mph in a 60 zone
    let plate = b"AB12".to_vec();
    assert!(evaluate(&plate, 3, 0, 0, 3600, 60, 60).is_none());
}

#[test]
fn speed_reading_saturates_the_wire_field() {
    // 65535 miles in one second; the reported figure caps at 65535
    let plate = b"ZZ99".to_vec();
    let t = evaluate(&plate, 9, 0, 0, 1, 65535, 0).expect("a ticket is due");
    assert_eq!(t.speed, 65535);
}

#[test]
fn speed_reading_truncates() {
    // 1 mile in 7 seconds: 514.285... mph, reported as 51428
    let plate = b"TRNC".to_vec();
    let t = evaluate(&plate, 2, 0, 0, 7, 1, 60).expect("a ticket is due");
    assert_eq!(t.speed, 51428);
}
