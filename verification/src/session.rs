//! The per-connection session state machine and the heartbeat timer model.
//! A connection driver reads bytes, decodes messages and performs timed
//! waits; every decision — which messages a state accepts, what each one
//! triggers, when a heartbeat is owed — is taken here.

use vstd::prelude::*;

use crate::codec::Msg;
use crate::router::{RouteOutcome, Router};
use crate::store::{decision, log_insert, ticket_for, Store};

verus! {

/// The role a connection has declared.
#[derive(Clone, Copy, Debug, PartialEq, Eq, Structural)]
pub enum SessionState {
    /// No role declared yet.
    AwaitingRole,
    /// A camera at a fixed mile on a road with a posted speed limit.
    Camera { road: u16, mile: u16, limit: u16 },
    /// A dispatcher; its road coverage was registered at the transition.
    Dispatcher,
}

/// What the connection driver must do after one decoded message.
pub enum Action {
    /// Nothing beyond reading on.
    Continue,
    /// Re-arm the heartbeat timer with this interval in deciseconds; a
    /// later request replaces the previous interval.
    Arm { interval: u32 },
    /// Hand the observation to the observation store under this camera's
    /// fixed road, mile and limit.
    RecordPlate { plate: Vec<u8>, timestamp: u32, road: u16, mile: u16, limit: u16 },
    /// Register the dispatcher for these roads, flush the returned pending
    /// tickets, then stream arriving tickets.
    Register { roads: Vec<u16> },
    /// The message is invalid in this state: send an error frame and close
    /// the connection.
    Reject,
}

/// The one transition the session state machine allows for a message:
/// a heartbeat request is honoured in every state; the two role
/// declarations are honoured only before a role is declared; a plate
/// report is honoured only by a camera; everything else is rejected.
pub open spec fn step_ok(state: SessionState, msg: Msg, r: (SessionState, Action)) -> bool {
    match msg {
        Msg::WantHeartbeat { interval } => r.0 == state && r.1 == (Action::Arm { interval }),
        Msg::IAmCamera { road, mile, limit } => if state is AwaitingRole {
            r.0 == (SessionState::Camera { road, mile, limit }) && r.1 is Continue
        } else {
            r.0 == state && r.1 is Reject
        },
        Msg::IAmDispatcher { roads } => if state is AwaitingRole {
            &&& r.0 is Dispatcher
            &&& r.1 matches Action::Register { roads: rs }
            &&& rs@ == roads@
        } else {
            r.0 == state && r.1 is Reject
        },
        Msg::Plate { plate, timestamp } => match state {
            SessionState::Camera { road, mile, limit } => {
                &&& r.0 == state
                &&& r.1 matches Action::RecordPlate {
                    plate: p,
                    timestamp: ts,
                    road: rd,
                    mile: m,
                    limit: l,
                }
                &&& p@ == plate@
                &&& ts == timestamp
                &&& rd == road
                &&& m == mile
                &&& l == limit
            },
            _ => r.0 == state && r.1 is Reject,
        },
    }
}

/// Advance a session by one decoded message.
pub fn step(state: SessionState, msg: Msg) -> (r: (SessionState, Action))
    ensures
        step_ok(state, msg, r),
{
    match msg {
        Msg::WantHeartbeat { interval } => (state, Action::Arm { interval }),
        Msg::IAmCamera { road, mile, limit } => match state {
            SessionState::AwaitingRole => (
                SessionState::Camera { road, mile, limit },
                Action::Continue,
            ),
            _ => (state, Action::Reject),
        },
        Msg::IAmDispatcher { roads } => match state {
            SessionState::AwaitingRole => (SessionState::Dispatcher, Action::Register { roads }),
            _ => (state, Action::Reject),
        },
        Msg::Plate { plate, timestamp } => match state {
            SessionState::Camera { road, mile, limit } => (
                state,
                Action::RecordPlate { plate, timestamp, road, mile, limit },
            ),
            _ => (state, Action::Reject),
        },
    }
}

/// The per-connection heartbeat timer: disabled, or armed with a fixed
/// period. While armed, the connection owes one heartbeat byte every
/// period, measured from the time of the request; the timed waiting
/// itself is the connection driver's.
pub struct Heartbeat {
    pub enabled: bool,
    pub interval_millis: u64,
}

impl Heartbeat {
    /// Interpret a requested interval in deciseconds: zero disables the
    /// timer, any other value arms it with a period of `interval` times
    /// one hundred milliseconds.
    pub fn from_interval(interval: u32) -> (h: Heartbeat)
        ensures
            h.enabled <==> interval != 0,
            interval != 0 ==> h.interval_millis == interval * 100,
    {
        if interval != 0 {
            Heartbeat { enabled: true, interval_millis: (interval as u64) * 100 }
        } else {
            Heartbeat { enabled: false, interval_millis: 0 }
        }
    }
}

/// The camera-side pipeline for one plate observation: record it in the
/// observation store and, if a ticket results, hand the ticket to the
/// dispatch router. The caller performs the one delivery the outcome may
/// name; a queued ticket needs nothing further.
pub fn process_observation(
    store: &mut Store,
    router: &mut Router,
    plate: &Vec<u8>,
    road: u16,
    mile: u16,
    timestamp: u32,
    limit: u16,
) -> (r: Option<RouteOutcome>)
    requires
        old(store).wf(),
        old(router).wf(),
        plate@.len() <= 255,
    ensures
        final(store).wf(),
        final(router).wf(),
        final(store).log_of(plate@, road) == log_insert(
            old(store).log_of(plate@, road),
            timestamp,
            mile,
        ),
        forall|p: Seq<u8>, rd: u16|
            !(p == plate@ && rd == road) ==> final(store).log_of(p, rd) == old(store).log_of(
                p,
                rd,
            ),
        final(router).coverage@ == old(router).coverage@,
        final(router).live@ == old(router).live@,
        final(router).next_id == old(router).next_id,
        ({
            let dec = decision(
                old(store).log_of(plate@, road),
                old(store).ticketed(plate@, timestamp / 86400),
                timestamp,
                mile,
                limit,
            );
            let cov = old(router).covering(road);
            &&& (r is Some <==> dec is Some)
            &&& forall|p: Seq<u8>, d: u32|
                final(store).ticketed(p, d) <==> (old(store).ticketed(p, d) || (dec is Some && p
                    == plate@ && d == timestamp / 86400))
            &&& (dec is None ==> forall|rd: u16|
                final(router).pending_for(rd) == old(router).pending_for(rd))
            &&& (r matches Some(out) ==> (dec matches Some(pair) && (
                if cov.len() > 0 && old(router).live@.contains(cov[0]) {
                    &&& out matches RouteOutcome::Deliver { dispatcher, ticket }
                    &&& dispatcher == cov[0]
                    &&& ticket_for(ticket, plate@, road, pair)
                    &&& forall|rd: u16|
                        final(router).pending_for(rd) == old(router).pending_for(rd)
                } else {
                    &&& out is Queued
                    &&& final(router).pending_for(road).len() == old(router).pending_for(
                        road,
                    ).len() + 1
                    &&& final(router).pending_for(road).drop_last() == old(router).pending_for(
                        road,
                    )
                    &&& ticket_for(final(router).pending_for(road).last(), plate@, road, pair)
                    &&& forall|rd: u16|
                        rd != road ==> final(router).pending_for(rd) == old(router).pending_for(
                            rd,
                        )
                }
            )))
        }),
{
    let t_opt = store.record(plate, road, timestamp, mile, limit);
    match t_opt {
        Some(t) => {
            let ghost t0 = t;
            let out = router.route(t);
            proof {
                let cov = old(router).covering(road);
                if !(cov.len() > 0 && old(router).live@.contains(cov[0])) {
                    assert(router.pending_for(road) == old(router).pending_for(road).push(t0));
                    assert(router.pending_for(road).drop_last() =~= old(router).pending_for(
                        road,
                    ));
                    assert(router.pending_for(road).last() == t0);
                }
            }
            Some(out)
        },
        None => None,
    }
}

} // verus!
