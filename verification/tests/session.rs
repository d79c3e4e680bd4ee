use protocore::codec::Msg;
use protocore::router::{RouteOutcome, Router};
use protocore::session::{process_observation, step, Action, Heartbeat, SessionState};
use protocore::store::Store;

#[test]
fn session_heartbeat_request_in_any_state() {
    let (next, action) = step(SessionState::AwaitingRole, Msg::WantHeartbeat { interval: 10 });
    assert_eq!(next, SessionState::AwaitingRole);
    assert!(matches!(action, Action::Arm { interval: 10 }));

    let camera = SessionState::Camera { road: 1, mile: 8, limit: 60 };
    let (next, action) = step(camera, Msg::WantHeartbeat { interval: 0 });
    assert_eq!(next, camera);
    assert!(matches!(action, Action::Arm { interval: 0 }));

    let (next, action) = step(SessionState::Dispatcher, Msg::WantHeartbeat { interval: 7 });
    assert_eq!(next, SessionState::Dispatcher);
    assert!(matches!(action, Action::Arm { interval: 7 }));
}

#[test]
fn session_camera_declaration() {
    let msg = Msg::IAmCamera { road: 1, mile: 8, limit: 60 };
    let (next, action) = step(SessionState::AwaitingRole, msg);
    assert_eq!(next, SessionState::Camera { road: 1, mile: 8, limit: 60 });
    assert!(matches!(action, Action::Continue));
}

#[test]
fn session_dispatcher_declaration() {
    let msg = Msg::IAmDispatcher { roads: vec![2, 5] };
    let (next, action) = step(SessionState::AwaitingRole, msg);
    assert_eq!(next, SessionState::Dispatcher);
    match action {
        Action::Register { roads } => assert_eq!(roads, vec![2, 5]),
        _ => panic!("a dispatcher declaration registers its roads"),
    }
}

#[test]
fn session_camera_forwards_plates() {
    let camera = SessionState::Camera { road: 1, mile: 8, limit: 60 };
    let msg = Msg::Plate { plate: b"UN1X".to_vec(), timestamp: 40 };
    let (next, action) = step(camera, msg);
    assert_eq!(next, camera);
    match action {
        Action::RecordPlate { plate, timestamp, road, mile, limit } => {
            assert_eq!(plate, b"UN1X".to_vec());
            assert_eq!(timestamp, 40);
            assert_eq!(road, 1);
            assert_eq!(mile, 8);
            assert_eq!(limit, 60);
        }
        _ => panic!("a camera hands plates to the store"),
    }
}

#[test]
fn session_rejects_out_of_state_messages() {
    // a plate before any role is declared
    let msg = Msg::Plate { plate: b"UN1X".to_vec(), timestamp: 0 };
    let (next, action) = step(SessionState::AwaitingRole, msg);
    assert_eq!(next, SessionState::AwaitingRole);
    assert!(matches!(action, Action::Reject));

    // a camera declaring itself twice
    let camera = SessionState::Camera { road: 1, mile: 8, limit: 60 };
    let (_, action) = step(camera, Msg::IAmCamera { road: 2, mile: 0, limit: 50 });
    assert!(matches!(action, Action::Reject));

    // a camera declaring itself a dispatcher
    let (_, action) = step(camera, Msg::IAmDispatcher { roads: vec![1] });
    assert!(matches!(action, Action::Reject));

    // a dispatcher sending a plate
    let msg = Msg::Plate { plate: b"UN1X".to_vec(), timestamp: 0 };
    let (_, action) = step(SessionState::Dispatcher, msg);
    assert!(matches!(action, Action::Reject));
}

#[test]
fn session_heartbeat_interval_zero_disables() {
    let h = Heartbeat::from_interval(0);
    assert!(!h.enabled);
}

#[test]
fn session_heartbeat_interval_is_deciseconds() {
    let h = Heartbeat::from_interval(10);
    assert!(h.enabled);
    assert_eq!(h.interval_millis, 1000);
    let h = Heartbeat::from_interval(1);
    assert_eq!(h.interval_millis, 100);
}

#[test]
fn session_observation_pipeline() {
    // the full camera-side path: two observations of one plate on road 1
    // imply 90 mph in a 60 zone; the ticket is queued while no dispatcher
    // covers the road and handed over on registration
    let mut store = Store::new();
    let mut router = Router::new();
    let plate = b"UN1X".to_vec();
    assert!(process_observation(&mut store, &mut router, &plate, 1, 0, 0, 60).is_none());
    let outcome = process_observation(&mut store, &mut router, &plate, 1, 1, 40, 60);
    assert!(matches!(outcome, Some(RouteOutcome::Queued)));
    let (id, pending) = router.register(&vec![1]);
    assert_eq!(pending.len(), 1);
    assert_eq!(pending[0].speed, 9000);

    // the next day the same camera catches the same plate again; the
    // ticket now goes straight to the registered dispatcher
    assert!(process_observation(&mut store, &mut router, &plate, 1, 0, 86400, 60).is_none());
    match process_observation(&mut store, &mut router, &plate, 1, 1, 86440, 60) {
        Some(RouteOutcome::Deliver { dispatcher, ticket }) => {
            assert_eq!(dispatcher, id);
            assert_eq!(ticket.speed, 9000);
            assert_eq!(ticket.timestamp1, 86400);
        }
        _ => panic!("the ticket goes to the one registered dispatcher"),
    }
}

#[test]
fn session_heartbeat_largest_interval() {
    let h = Heartbeat::from_interval(u32::MAX);
    assert!(h.enabled);
    assert_eq!(h.interval_millis, u32::MAX as u64 * 100);
}
