//! The dispatch router: which dispatchers cover which road, which
//! dispatcher identifiers hold a live delivery channel, and a per-road
//! queue of tickets generated while no dispatcher covered the road.
//!
//! The router decides; the channels themselves live outside this crate. A
//! routed ticket is delivered to exactly one dispatcher — the first ever
//! registered for the road — or queued, and a registration drains the
//! queues of the roads it covers, in their original order, exactly once.

use vstd::prelude::*;

use crate::assoc::{
    assoc_get, distinct_keys, key_idx, lemma_assoc_remove, lemma_key_idx, lemma_key_idx_push,
    lemma_key_idx_update, lemma_push_contains,
};
use crate::speed::Ticket;

verus! {

/// What became of a routed ticket.
pub enum RouteOutcome {
    /// Hand `ticket` to the delivery channel of dispatcher `dispatcher`.
    Deliver { dispatcher: u16, ticket: Ticket },
    /// No live dispatcher covers the road; the ticket waits in the queue.
    Queued,
}

/// The shared routing state.
pub struct Router {
    /// Road to the identifiers of the dispatchers covering it, in
    /// registration order (identifiers are handed out in increasing order,
    /// so the first entry is the earliest registrant).
    pub coverage: Vec<(u16, Vec<u16>)>,
    /// Identifiers whose delivery channel is live.
    pub live: Vec<u16>,
    /// Road to the tickets waiting for a dispatcher, in generation order.
    pub pending: Vec<(u16, Vec<Ticket>)>,
    /// The next dispatcher identifier to hand out.
    pub next_id: u16,
}

/// Every identifier in `l` is below `bound`.
pub open spec fn ids_below(l: Seq<u16>, bound: u16) -> bool {
    forall|i: int| 0 <= i < l.len() ==> l[i] < bound
}

pub open spec fn strictly_increasing(l: Seq<u16>) -> bool {
    forall|i: int, j: int| 0 <= i < j < l.len() ==> l[i] < l[j]
}

impl Router {
    pub open spec fn wf(self) -> bool {
        &&& distinct_keys(self.coverage@)
        &&& distinct_keys(self.pending@)
        &&& forall|i: int|
            0 <= i < self.coverage@.len() ==> ids_below(self.coverage@[i].1@, self.next_id)
        &&& forall|i: int|
            0 <= i < self.coverage@.len() ==> strictly_increasing(self.coverage@[i].1@)
        &&& forall|i: int, k: int|
            0 <= i < self.pending@.len() && 0 <= k < self.pending@[i].1@.len()
                ==> self.pending@[i].1@[k].road == self.pending@[i].0
    }

    /// The dispatchers covering `road`, in registration order.
    pub open spec fn covering(self, road: u16) -> Seq<u16> {
        match assoc_get(self.coverage@, road) {
            Some(l) => l@,
            None => Seq::empty(),
        }
    }

    /// The queued tickets of `road`, in generation order.
    pub open spec fn pending_for(self, road: u16) -> Seq<Ticket> {
        match assoc_get(self.pending@, road) {
            Some(q) => q@,
            None => Seq::empty(),
        }
    }

    /// The pending queues as a map from road to its queue.
    pub open spec fn pending_map(self) -> Map<u16, Seq<Ticket>> {
        Map::new(
            |road: u16| assoc_get(self.pending@, road) is Some,
            |road: u16| self.pending_for(road),
        )
    }

    /// A router with no registrations and no queued tickets.
    pub fn new() -> (r: Router)
        ensures
            r.wf(),
            r.next_id == 0,
            r.live@ == Seq::<u16>::empty(),
            forall|rd: u16| r.covering(rd) == Seq::<u16>::empty(),
            forall|rd: u16| r.pending_for(rd) == Seq::<Ticket>::empty(),
    {
        Router { coverage: Vec::new(), live: Vec::new(), pending: Vec::new(), next_id: 0 }
    }
}

/// Whether `id` occurs in `l`.
fn contains_id(l: &Vec<u16>, id: u16) -> (r: bool)
    ensures
        r == l@.contains(id),
{
    let n = l.len();
    let mut i: usize = 0;
    while i < n
        invariant
            i <= n,
            n == l@.len(),
            forall|j: int| 0 <= j < i ==> l@[j] != id,
        decreases n - i,
    {
        if l[i] == id {
            return true;
        }
        i += 1;
    }
    false
}

/// The position of the entry for key `k`, by a forward scan.
fn find_key<T>(s: &Vec<(u16, T)>, k: u16) -> (i: usize)
    ensures
        i == key_idx(s@, k),
{
    let n = s.len();
    let mut i: usize = 0;
    while i < n
        invariant
            i <= n,
            n == s@.len(),
            forall|j: int| 0 <= j < i ==> s@[j].0 != k,
        decreases n - i,
    {
        if s[i].0 == k {
            proof {
                lemma_key_idx(s@, k);
                let ki = key_idx(s@, k);
                if ki < i {
                    assert(s@[ki].0 != k);
                    assert(false);
                }
                if ki > i {
                    assert(s@[i as int].0 != k);
                    assert(false);
                }
            }
            return i;
        }
        i += 1;
    }
    proof {
        lemma_key_idx(s@, k);
        let ki = key_idx(s@, k);
        if ki < n {
            assert(s@[ki].0 != k);
            assert(false);
        }
    }
    n
}

impl Router {
    /// Route one ticket: if a dispatcher covers the road and its channel is
    /// live, the ticket goes to the earliest-registered one and the router
    /// is unchanged; otherwise the ticket joins the road's pending queue.
    pub fn route(&mut self, ticket: Ticket) -> (r: RouteOutcome)
        requires
            old(self).wf(),
        ensures
            final(self).wf(),
            final(self).coverage@ == old(self).coverage@,
            final(self).live@ == old(self).live@,
            final(self).next_id == old(self).next_id,
            ({
                let cov = old(self).covering(ticket.road);
                if cov.len() > 0 && old(self).live@.contains(cov[0]) {
                    &&& r matches RouteOutcome::Deliver { dispatcher, ticket: t }
                    &&& dispatcher == cov[0]
                    &&& t == ticket
                    &&& forall|rd: u16| final(self).pending_for(rd) == old(self).pending_for(rd)
                } else {
                    &&& r is Queued
                    &&& final(self).pending_for(ticket.road) == old(self).pending_for(
                        ticket.road,
                    ).push(ticket)
                    &&& forall|rd: u16|
                        rd != ticket.road ==> final(self).pending_for(rd) == old(
                            self,
                        ).pending_for(rd)
                }
            }),
    {
        let road = ticket.road;
        let ci = find_key(&self.coverage, road);
        proof {
            lemma_key_idx(self.coverage@, road);
        }
        if ci < self.coverage.len() {
            let l = &self.coverage[ci].1;
            if l.len() > 0 {
                let d = l[0];
                if contains_id(&self.live, d) {
                    return RouteOutcome::Deliver { dispatcher: d, ticket };
                }
            }
        }
        // no live dispatcher covers the road: the ticket waits in the queue
        let ghost pending0 = self.pending@;
        let pi = find_key(&self.pending, road);
        proof {
            lemma_key_idx(pending0, road);
        }
        let existed = pi < self.pending.len();
        let (k, mut q): (u16, Vec<Ticket>) = if existed {
            self.pending.remove(pi)
        } else {
            (road, Vec::new())
        };
        let ghost t = ticket;
        q.push(ticket);
        let ghost q_f = q;
        self.pending.insert(pi, (k, q));
        proof {
            let pf = self.pending@;
            if existed {
                assert(pf =~= pending0.update(pi as int, (k, q_f)));
                lemma_key_idx_update(pending0, pi as int, (k, q_f), road);
                assert(self.pending_for(road) == old(self).pending_for(road).push(t));
                assert forall|rd: u16|
                    rd != road implies self.pending_for(rd) == old(self).pending_for(rd) by {
                    lemma_key_idx_update(pending0, pi as int, (k, q_f), rd);
                    lemma_key_idx(pending0, rd);
                }
                assert(distinct_keys(pf)) by {
                    assert forall|a: int, b: int|
                        0 <= a < b < pf.len() implies pf[a].0 != pf[b].0 by {
                        assert(pf[a].0 == pending0[a].0);
                        assert(pf[b].0 == pending0[b].0);
                    }
                }
            } else {
                assert(pf =~= pending0.push((k, q_f)));
                lemma_key_idx_push(pending0, (k, q_f), road);
                assert(self.pending_for(road) =~= old(self).pending_for(road).push(t));
                assert forall|rd: u16|
                    rd != road implies self.pending_for(rd) == old(self).pending_for(rd) by {
                    lemma_key_idx_push(pending0, (k, q_f), rd);
                    lemma_key_idx(pending0, rd);
                }
                assert(distinct_keys(pf)) by {
                    assert forall|a: int, b: int|
                        0 <= a < b < pf.len() implies pf[a].0 != pf[b].0 by {
                        if b < pending0.len() {
                        } else {
                            assert(pf[b].0 == road);
                            assert(pending0[a].0 != road);
                        }
                    }
                }
            }
            assert forall|i: int, kk: int|
                0 <= i < pf.len() && 0 <= kk < pf[i].1@.len() implies pf[i].1@[kk].road
                == pf[i].0 by {
                if existed {
                    if i != pi as int {
                        assert(pf[i] == pending0[i]);
                    } else {
                        if kk < pending0[pi as int].1@.len() {
                            assert(pf[i].1@[kk] == pending0[pi as int].1@[kk]);
                        } else {
                            assert(pf[i].1@[kk] == t);
                        }
                    }
                } else {
                    if i < pending0.len() {
                        assert(pf[i] == pending0[i]);
                    } else {
                        assert(pf[i].1@[kk] == t);
                    }
                }
            }
        }
        RouteOutcome::Queued
    }
}

/// The tickets a registration covering `roads` walks away with: each road's
/// queue in turn, in the order the roads were given, a road contributing
/// nothing the second time it appears.
pub open spec fn drain_order(m: Map<u16, Seq<Ticket>>, roads: Seq<u16>) -> Seq<Ticket>
    decreases roads.len(),
{
    if roads.len() == 0 {
        Seq::empty()
    } else {
        let head = if m.dom().contains(roads[0]) {
            m[roads[0]]
        } else {
            Seq::empty()
        };
        head + drain_order(m.remove(roads[0]), roads.drop_first())
    }
}

impl Router {
    /// Register a new dispatcher covering `roads`: allocate the next
    /// identifier, record its channel as live, add it to the coverage of
    /// each road (once, even where a road repeats in the list), and drain
    /// the pending queue of every covered road.
    pub fn register(&mut self, roads: &Vec<u16>) -> (r: (u16, Vec<Ticket>))
        requires
            old(self).wf(),
            old(self).next_id < 65535,
        ensures
            final(self).wf(),
            r.0 == old(self).next_id,
            final(self).next_id == old(self).next_id + 1,
            final(self).live@ == old(self).live@.push(r.0),
            forall|rd: u16|
                roads@.contains(rd) ==> final(self).covering(rd) == old(self).covering(rd).push(
                    r.0,
                ),
            forall|rd: u16| !roads@.contains(rd) ==> final(self).covering(rd) == old(self).covering(rd),
            r.1@ == drain_order(old(self).pending_map(), roads@),
            forall|rd: u16|
                roads@.contains(rd) ==> final(self).pending_for(rd) == Seq::<Ticket>::empty(),
            forall|rd: u16|
                !roads@.contains(rd) ==> final(self).pending_for(rd) == old(self).pending_for(rd),
    {
        let ghost s0 = *old(self);
        let id = self.next_id;
        self.next_id = self.next_id + 1;
        self.live.push(id);
        let n = roads.len();

        // phase one: extend the coverage of every listed road with the new
        // identifier, once per road
        let mut j: usize = 0;
        while j < n
            invariant
                j <= n,
                n == roads@.len(),
                s0.wf(),
                id == s0.next_id,
                id < 65535,
                self.next_id == id + 1,
                self.live@ == s0.live@.push(id),
                self.pending@ == s0.pending@,
                distinct_keys(self.coverage@),
                forall|i: int|
                    0 <= i < self.coverage@.len() ==> ids_below(
                        self.coverage@[i].1@,
                        self.next_id,
                    ),
                forall|i: int|
                    0 <= i < self.coverage@.len() ==> strictly_increasing(self.coverage@[i].1@),
                forall|rd: u16|
                    roads@.take(j as int).contains(rd) ==> covering_at(self.coverage@, rd)
                        == covering_at(s0.coverage@, rd).push(id),
                forall|rd: u16|
                    !roads@.take(j as int).contains(rd) ==> covering_at(self.coverage@, rd)
                        == covering_at(s0.coverage@, rd),
            decreases n - j,
        {
            let rd = roads[j];
            let ghost covj = self.coverage@;
            let ghost already = roads@.take(j as int).contains(rd);
            let ci = find_key(&self.coverage, rd);
            proof {
                lemma_key_idx(covj, rd);
                lemma_key_idx(s0.coverage@, rd);
            }
            if ci < self.coverage.len() {
                let (ck, mut l) = self.coverage.remove(ci);
                // within this call the identifier may already be on the
                // list (the road repeats); it is then the last element
                let dup = l.len() > 0 && l[l.len() - 1] == id;
                proof {
                    assert(l@ == covering_at(covj, rd));
                    if already {
                        assert(l@ == covering_at(s0.coverage@, rd).push(id));
                        assert(l@[l@.len() - 1] == id);
                        assert(dup);
                    } else {
                        assert(l@ == covering_at(s0.coverage@, rd));
                        if l@.len() > 0 {
                            assert(s0.coverage@[key_idx(s0.coverage@, rd)].1@ == l@);
                            assert(l@[l@.len() - 1] < id);
                        }
                        assert(!dup);
                    }
                }
                if !dup {
                    l.push(id);
                }
                let ghost l_f = l;
                self.coverage.insert(ci, (ck, l));
                proof {
                    assert(self.coverage@ =~= covj.update(ci as int, (ck, l_f)));
                    assert(distinct_keys(self.coverage@)) by {
                        assert forall|a: int, b: int|
                            0 <= a < b < self.coverage@.len() implies self.coverage@[a].0
                            != self.coverage@[b].0 by {
                            assert(self.coverage@[a].0 == covj[a].0);
                            assert(self.coverage@[b].0 == covj[b].0);
                        }
                    }
                    lemma_key_idx_update(covj, ci as int, (ck, l_f), rd);
                    assert(covering_at(self.coverage@, rd) == l_f@);
                    if !already {
                        assert(l_f@ == covering_at(s0.coverage@, rd).push(id));
                    }
                    assert forall|x: u16| x != rd implies covering_at(self.coverage@, x)
                        == covering_at(covj, x) by {
                        lemma_key_idx_update(covj, ci as int, (ck, l_f), x);
                        lemma_key_idx(covj, x);
                    }
                    lemma_push_contains(roads@.take(j as int), rd, rd);
                    assert(roads@.take(j as int + 1) =~= roads@.take(j as int).push(rd));
                    assert(covering_at(self.coverage@, rd) == covering_at(
                        s0.coverage@,
                        rd,
                    ).push(id));
                    assert forall|x: u16| #[trigger]
                        roads@.take(j as int + 1).contains(x) implies covering_at(
                        self.coverage@,
                        x,
                    ) == covering_at(s0.coverage@, x).push(id) by {
                        lemma_push_contains(roads@.take(j as int), rd, x);
                        if x != rd {
                            assert(roads@.take(j as int).contains(x));
                            assert(covering_at(covj, x) == covering_at(s0.coverage@, x).push(id));
                            assert(covering_at(self.coverage@, x) == covering_at(covj, x));
                        }
                    }
                    assert forall|x: u16|
                        !#[trigger] roads@.take(j as int + 1).contains(x) implies covering_at(
                        self.coverage@,
                        x,
                    ) == covering_at(s0.coverage@, x) by {
                        lemma_push_contains(roads@.take(j as int), rd, x);
                        assert(x != rd);
                        assert(!roads@.take(j as int).contains(x));
                        assert(covering_at(covj, x) == covering_at(s0.coverage@, x));
                        assert(covering_at(self.coverage@, x) == covering_at(covj, x));
                    }
                }
            } else {
                proof {
                    // an already-processed road has a nonempty coverage
                    // entry, so this key is genuinely new
                    assert(covering_at(covj, rd) == Seq::<u16>::empty());
                    if already {
                        assert(covering_at(covj, rd) == covering_at(s0.coverage@, rd).push(id));
                        assert(false);
                    }
                    assert(covering_at(s0.coverage@, rd) == Seq::<u16>::empty());
                }
                let mut l: Vec<u16> = Vec::new();
                l.push(id);
                let ghost l_f = l;
                self.coverage.push((rd, l));
                proof {
                    assert(self.coverage@ == covj.push((rd, l_f)));
                    assert(distinct_keys(self.coverage@)) by {
                        assert forall|a: int, b: int|
                            0 <= a < b < self.coverage@.len() implies self.coverage@[a].0
                            != self.coverage@[b].0 by {
                            if b < covj.len() {
                            } else {
                                assert(self.coverage@[b].0 == rd);
                                assert(covj[a].0 != rd);
                            }
                        }
                    }
                    lemma_key_idx_push(covj, (rd, l_f), rd);
                    assert(covering_at(self.coverage@, rd) == l_f@);
                    assert(l_f@ == Seq::<u16>::empty().push(id));
                    assert forall|x: u16| x != rd implies covering_at(self.coverage@, x)
                        == covering_at(covj, x) by {
                        lemma_key_idx_push(covj, (rd, l_f), x);
                        lemma_key_idx(covj, x);
                    }
                    lemma_push_contains(roads@.take(j as int), rd, rd);
                    assert(roads@.take(j as int + 1) =~= roads@.take(j as int).push(rd));
                    assert(covering_at(self.coverage@, rd) == covering_at(
                        s0.coverage@,
                        rd,
                    ).push(id));
                    assert forall|x: u16| #[trigger]
                        roads@.take(j as int + 1).contains(x) implies covering_at(
                        self.coverage@,
                        x,
                    ) == covering_at(s0.coverage@, x).push(id) by {
                        lemma_push_contains(roads@.take(j as int), rd, x);
                        if x != rd {
                            assert(roads@.take(j as int).contains(x));
                            assert(covering_at(covj, x) == covering_at(s0.coverage@, x).push(id));
                            assert(covering_at(self.coverage@, x) == covering_at(covj, x));
                        }
                    }
                    assert forall|x: u16|
                        !#[trigger] roads@.take(j as int + 1).contains(x) implies covering_at(
                        self.coverage@,
                        x,
                    ) == covering_at(s0.coverage@, x) by {
                        lemma_push_contains(roads@.take(j as int), rd, x);
                        assert(x != rd);
                        assert(!roads@.take(j as int).contains(x));
                        assert(covering_at(covj, x) == covering_at(s0.coverage@, x));
                        assert(covering_at(self.coverage@, x) == covering_at(covj, x));
                    }
                }
            }
            j += 1;
        }

        // phase two: drain the pending queue of every covered road, in the
        // order the roads were given
        let mut out: Vec<Ticket> = Vec::new();
        proof {
            assert(roads@.take(n as int) =~= roads@);
            assert(self.pending_map() =~= s0.pending_map());
            assert(roads@.skip(0) =~= roads@);
            assert(out@ + drain_order(self.pending_map(), roads@) =~= drain_order(
                self.pending_map(),
                roads@,
            ));
        }
        let mut j: usize = 0;
        while j < n
            invariant
                j <= n,
                n == roads@.len(),
                s0.wf(),
                id == s0.next_id,
                self.next_id == id + 1,
                self.live@ == s0.live@.push(id),
                distinct_keys(self.coverage@),
                forall|i: int|
                    0 <= i < self.coverage@.len() ==> ids_below(
                        self.coverage@[i].1@,
                        self.next_id,
                    ),
                forall|i: int|
                    0 <= i < self.coverage@.len() ==> strictly_increasing(self.coverage@[i].1@),
                forall|rd: u16|
                    roads@.contains(rd) ==> covering_at(self.coverage@, rd) == covering_at(
                        s0.coverage@,
                        rd,
                    ).push(id),
                forall|rd: u16|
                    !roads@.contains(rd) ==> covering_at(self.coverage@, rd) == covering_at(
                        s0.coverage@,
                        rd,
                    ),
                distinct_keys(self.pending@),
                forall|i: int, kk: int|
                    0 <= i < self.pending@.len() && 0 <= kk < self.pending@[i].1@.len()
                        ==> self.pending@[i].1@[kk].road == self.pending@[i].0,
                drain_order(s0.pending_map(), roads@) == out@ + drain_order(
                    self.pending_map(),
                    roads@.skip(j as int),
                ),
                forall|rd: u16|
                    roads@.take(j as int).contains(rd) ==> assoc_get(self.pending@, rd) is None,
                forall|rd: u16|
                    !roads@.take(j as int).contains(rd) ==> assoc_get(self.pending@, rd)
                        == assoc_get(s0.pending@, rd),
            decreases n - j,
        {
            let rd = roads[j];
            let ghost pj = self.pending@;
            let ghost mj = self.pending_map();
            let ghost rs = roads@.skip(j as int);
            proof {
                assert(rs[0] == rd);
                assert(rs.drop_first() =~= roads@.skip(j as int + 1));
            }
            let pi = find_key(&self.pending, rd);
            proof {
                lemma_key_idx(pj, rd);
            }
            if pi < self.pending.len() {
                let (_k, mut q) = self.pending.remove(pi);
                proof {
                    assert(q@ == mj[rd]);
                    lemma_assoc_remove(pj, pi as int, rd);
                }
                out.append(&mut q);
                proof {
                    assert(self.pending_map() =~= mj.remove(rd));
                    assert forall|i: int, kk: int|
                        0 <= i < self.pending@.len() && 0 <= kk
                            < self.pending@[i].1@.len() implies self.pending@[i].1@[kk].road
                        == self.pending@[i].0 by {
                        let i0: int = if i < pi as int {
                            i
                        } else {
                            i + 1
                        };
                        assert(self.pending@[i] == pj[i0]);
                    }
                }
            } else {
                proof {
                    assert(!mj.dom().contains(rd));
                    assert(mj.remove(rd) =~= mj);
                }
            }
            proof {
                let m2 = self.pending_map();
                assert(m2 == mj.remove(rd));
                assert(drain_order(mj, rs) == (if mj.dom().contains(rd) {
                    mj[rd]
                } else {
                    Seq::<Ticket>::empty()
                }) + drain_order(m2, rs.drop_first()));
                assert(out@ + drain_order(m2, roads@.skip(j as int + 1)) =~= drain_order(
                    s0.pending_map(),
                    roads@,
                ));
                assert(roads@.take(j as int + 1) =~= roads@.take(j as int).push(rd));
                assert forall|x: u16| #[trigger]
                    roads@.take(j as int + 1).contains(x) implies assoc_get(self.pending@, x)
                    is None by {
                    lemma_push_contains(roads@.take(j as int), rd, x);
                    if x != rd {
                        assert(assoc_get(pj, x) is None);
                    }
                }
                assert forall|x: u16|
                    !#[trigger] roads@.take(j as int + 1).contains(x) implies assoc_get(
                    self.pending@,
                    x,
                ) == assoc_get(s0.pending@, x) by {
                    lemma_push_contains(roads@.take(j as int), rd, x);
                }
            }
            j += 1;
        }
        proof {
            assert(roads@.skip(n as int) =~= Seq::<u16>::empty());
            assert(out@ + drain_order(self.pending_map(), roads@.skip(n as int)) =~= out@);
            assert(out@ == drain_order(s0.pending_map(), roads@));
        }
        (id, out)
    }
}

/// The coverage list an association list gives a road.
pub open spec fn covering_at(s: Seq<(u16, Vec<u16>)>, road: u16) -> Seq<u16> {
    match assoc_get(s, road) {
        Some(l) => l@,
        None => Seq::empty(),
    }
}

/// Every queue in the map holds only tickets for its own road.
pub open spec fn road_keyed(m: Map<u16, Seq<Ticket>>) -> bool {
    forall|rd: u16, i: int|
        m.dom().contains(rd) && 0 <= i < m[rd].len() ==> (#[trigger] m[rd][i]).road == rd
}

/// A well-formed router's pending map holds only tickets for their own
/// road.
pub proof fn lemma_wf_road_keyed(r: Router)
    requires
        r.wf(),
    ensures
        road_keyed(r.pending_map()),
{
    assert forall|rd: u16, i: int|
        r.pending_map().dom().contains(rd) && 0 <= i
            < r.pending_map()[rd].len() implies (#[trigger] r.pending_map()[rd][i]).road
        == rd by {
        lemma_key_idx(r.pending@, rd);
    }
}

/// Law: the first dispatcher that registers for a road receives that
/// road's queued tickets as one contiguous run, in their original
/// generation order. The returned value is the offset of the run inside
/// everything the registration walks away with.
pub proof fn lemma_drain_order_delivers(
    m: Map<u16, Seq<Ticket>>,
    roads: Seq<u16>,
    rd: u16,
) -> (off: int)
    requires
        roads.contains(rd),
        m.dom().contains(rd),
    ensures
        0 <= off,
        off + m[rd].len() <= drain_order(m, roads).len(),
        drain_order(m, roads).subrange(off, off + m[rd].len() as int) == m[rd],
    decreases roads.len(),
{
    let r0 = roads[0];
    let head: Seq<Ticket> = if m.dom().contains(r0) {
        m[r0]
    } else {
        Seq::empty()
    };
    let tail = drain_order(m.remove(r0), roads.drop_first());
    if r0 == rd {
        assert(drain_order(m, roads).subrange(0, m[rd].len() as int) =~= m[rd]);
        0
    } else {
        let k = choose|k: int| 0 <= k < roads.len() && roads[k] == rd;
        assert(roads.drop_first()[k - 1] == rd);
        assert(roads.drop_first().contains(rd));
        let off1 = lemma_drain_order_delivers(m.remove(r0), roads.drop_first(), rd);
        assert(drain_order(m, roads).subrange(
            head.len() + off1,
            head.len() + off1 + m[rd].len(),
        ) =~= tail.subrange(off1, off1 + m[rd].len() as int));
        head.len() as int + off1
    }
}

/// Law: a road whose queue has already been drained — or that never had
/// one — contributes nothing to any later drain: no pending ticket is
/// delivered twice.
pub proof fn lemma_drain_order_excludes(m: Map<u16, Seq<Ticket>>, roads: Seq<u16>, rd: u16)
    requires
        road_keyed(m),
        !m.dom().contains(rd),
    ensures
        forall|i: int|
            0 <= i < drain_order(m, roads).len() ==> (#[trigger] drain_order(m, roads)[i]).road
                != rd,
    decreases roads.len(),
{
    if roads.len() > 0 {
        let r0 = roads[0];
        let head: Seq<Ticket> = if m.dom().contains(r0) {
            m[r0]
        } else {
            Seq::empty()
        };
        let m1 = m.remove(r0);
        assert(road_keyed(m1)) by {
            assert forall|x: u16, i: int|
                m1.dom().contains(x) && 0 <= i < m1[x].len() implies (#[trigger] m1[x][i]).road
                == x by {
                assert(m[x][i].road == x);
            }
        }
        lemma_drain_order_excludes(m1, roads.drop_first(), rd);
        assert forall|i: int|
            0 <= i < drain_order(m, roads).len() implies (#[trigger] drain_order(m, roads)[i]).road
            != rd by {
            if i < head.len() {
                assert(drain_order(m, roads)[i] == m[r0][i]);
                assert(m[r0][i].road == r0);
            } else {
                assert(drain_order(m, roads)[i] == drain_order(m1, roads.drop_first())[i
                    - head.len()]);
            }
        }
    }
}

} // verus!
