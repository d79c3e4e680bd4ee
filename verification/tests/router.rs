use protocore::router::{RouteOutcome, Router};
use protocore::speed::Ticket;

fn ticket(plate: &[u8], road: u16) -> Ticket {
    Ticket {
        plate: plate.to_vec(),
        road,
        mile1: 0,
        timestamp1: 0,
        mile2: 1,
        timestamp2: 40,
        speed: 9000,
    }
}

#[test]
fn router_delivers_to_the_first_registered_dispatcher() {
    let mut router = Router::new();
    let (id0, pending0) = router.register(&vec![1]);
    let (id1, pending1) = router.register(&vec![1]);
    assert_eq!(id0, 0);
    assert_eq!(id1, 1);
    assert!(pending0.is_empty());
    assert!(pending1.is_empty());
    match router.route(ticket(b"UN1X", 1)) {
        RouteOutcome::Deliver { dispatcher, ticket: t } => {
            assert_eq!(dispatcher, id0);
            assert_eq!(t.plate, b"UN1X".to_vec());
        }
        RouteOutcome::Queued => panic!("a dispatcher covers the road"),
    }
}

#[test]
fn router_queues_without_a_dispatcher() {
    let mut router = Router::new();
    assert!(matches!(router.route(ticket(b"UN1X", 2)), RouteOutcome::Queued));
}

#[test]
fn router_pending_goes_to_the_next_registration() {
    // a ticket for road 2 is generated before any dispatcher registers;
    // the dispatcher that later covers roads 2 and 5 receives it at once,
    // and a yet later dispatcher for road 2 receives nothing
    let mut router = Router::new();
    assert!(matches!(router.route(ticket(b"UN1X", 2)), RouteOutcome::Queued));
    let (_, pending) = router.register(&vec![2, 5]);
    assert_eq!(pending.len(), 1);
    assert_eq!(pending[0].plate, b"UN1X".to_vec());
    assert_eq!(pending[0].road, 2);
    let (_, later) = router.register(&vec![2]);
    assert!(later.is_empty());
}

#[test]
fn router_pending_keeps_generation_order() {
    let mut router = Router::new();
    assert!(matches!(router.route(ticket(b"AAAA", 7)), RouteOutcome::Queued));
    assert!(matches!(router.route(ticket(b"BBBB", 7)), RouteOutcome::Queued));
    assert!(matches!(router.route(ticket(b"CCCC", 9)), RouteOutcome::Queued));
    // the queues drain in the order the registration lists its roads
    let (_, pending) = router.register(&vec![9, 7]);
    assert_eq!(pending.len(), 3);
    assert_eq!(pending[0].plate, b"CCCC".to_vec());
    assert_eq!(pending[1].plate, b"AAAA".to_vec());
    assert_eq!(pending[2].plate, b"BBBB".to_vec());
}

#[test]
fn router_duplicate_road_in_one_registration() {
    let mut router = Router::new();
    assert!(matches!(router.route(ticket(b"AAAA", 3)), RouteOutcome::Queued));
    // the repeated road neither duplicates the drained tickets ...
    let (id, pending) = router.register(&vec![3, 3]);
    assert_eq!(pending.len(), 1);
    // ... nor the delivery
    match router.route(ticket(b"BBBB", 3)) {
        RouteOutcome::Deliver { dispatcher, .. } => assert_eq!(dispatcher, id),
        RouteOutcome::Queued => panic!("a dispatcher covers the road"),
    }
}

#[test]
fn router_falls_back_to_the_queue_for_a_dead_registration() {
    // a coverage entry whose dispatcher has no live channel is treated as
    // no dispatcher at all
    let mut router = Router {
        coverage: vec![(1, vec![5])],
        live: vec![],
        pending: vec![],
        next_id: 6,
    };
    assert!(matches!(router.route(ticket(b"UN1X", 1)), RouteOutcome::Queued));
    let (_, pending) = router.register(&vec![1]);
    assert_eq!(pending.len(), 1);
}

#[test]
fn router_registration_with_no_roads() {
    let mut router = Router::new();
    let (id, pending) = router.register(&vec![]);
    assert_eq!(id, 0);
    assert!(pending.is_empty());
    // the dispatcher covers nothing, so tickets still queue
    assert!(matches!(router.route(ticket(b"UN1X", 1)), RouteOutcome::Queued));
}
