//! Verified core logic for a family of small TCP protocol servers.
//!
//! The centrepiece is a speed-enforcement ticketing service: a binary wire
//! protocol ([`codec`]), a pure speed evaluator ([`speed`]), a per-plate
//! observation store with one-ticket-per-day bookkeeping ([`store`]), a
//! dispatch router with pending-ticket queues ([`router`]), and the
//! per-connection session state machine ([`session`]). Networking, timers and
//! channels live outside this crate; every decision the server takes is made
//! by the functions here, under contracts checked by Verus.
//!
//! Two smaller text protocols contribute their pure helpers: the chat-room
//! announcement builders ([`chat`]) and the proxy wallet rewriter ([`proxy`]).
//! The tables of the store and the router are association lists, specified
//! and reasoned about through [`assoc`].

pub mod assoc;
pub mod chat;
pub mod codec;
pub mod proxy;
pub mod router;
pub mod session;
pub mod store;
pub mod speed;
