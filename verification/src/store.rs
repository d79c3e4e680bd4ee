//! The observation store: per-plate, per-road, time-ordered position
//! observations, plus per-plate ticketed-day bookkeeping. Its single
//! operation, [`Store::record`], looks up the chronological neighbours of a
//! new observation, asks the speed evaluator about each pairing, marks the
//! calendar day on a ticket, and inserts the observation.

use vstd::pervasive::VecAdditionalExecFns;
use vstd::prelude::*;

use crate::assoc::{key_idx, lemma_key_idx, lemma_key_idx_push, lemma_key_idx_update, lemma_push_contains};
use crate::speed::{evaluate, is_violation, reported_speed, Ticket};

verus! {

/// One camera reading: a mile marker at a second-resolution timestamp.
#[derive(Clone, Copy, PartialEq, Eq, Structural)]
pub struct Obs {
    pub timestamp: u32,
    pub mile: u16,
}

/// Strictly increasing timestamps: time-ordered, one entry per timestamp.
pub open spec fn sorted(s: Seq<Obs>) -> bool {
    forall|i: int, j: int| 0 <= i < j < s.len() ==> s[i].timestamp < s[j].timestamp
}

/// Where `ts` belongs in `s`: the length of the leading run of observations
/// strictly earlier than `ts`. In a sorted log this splits the entries into
/// the predecessors (strictly earlier) and the successors (at or later).
pub open spec fn split_idx(s: Seq<Obs>, ts: u32) -> int
    decreases s.len(),
{
    if s.len() == 0 {
        0
    } else if s[0].timestamp < ts {
        1 + split_idx(s.drop_first(), ts)
    } else {
        0
    }
}

/// In a sorted log the split index is a boundary: everything before it is
/// strictly earlier than `ts`, everything at or after it is not.
pub proof fn lemma_split_idx(s: Seq<Obs>, ts: u32)
    requires
        sorted(s),
    ensures
        0 <= split_idx(s, ts) <= s.len(),
        forall|j: int| 0 <= j < split_idx(s, ts) ==> s[j].timestamp < ts,
        forall|j: int| split_idx(s, ts) <= j < s.len() ==> s[j].timestamp >= ts,
    decreases s.len(),
{
    if s.len() > 0 && s[0].timestamp < ts {
        assert(sorted(s.drop_first()));
        lemma_split_idx(s.drop_first(), ts);
        assert forall|j: int| 0 <= j < split_idx(s, ts) implies s[j].timestamp < ts by {
            if j > 0 {
                assert(s.drop_first()[j - 1] == s[j]);
            }
        }
        assert forall|j: int| split_idx(s, ts) <= j < s.len() implies s[j].timestamp >= ts by {
            assert(s.drop_first()[j - 1] == s[j]);
        }
    }
}

/// The log after inserting `(ts, mile)`: an entry already at `ts` is
/// overwritten, otherwise the new entry goes in at the split index.
pub open spec fn log_insert(s: Seq<Obs>, ts: u32, mile: u16) -> Seq<Obs> {
    let i = split_idx(s, ts);
    let newo = Obs { timestamp: ts, mile };
    if i < s.len() && s[i].timestamp == ts {
        s.update(i, newo)
    } else {
        s.insert(i, newo)
    }
}

/// Insertion keeps a sorted log sorted.
pub proof fn lemma_log_insert_sorted(s: Seq<Obs>, ts: u32, mile: u16)
    requires
        sorted(s),
    ensures
        sorted(log_insert(s, ts, mile)),
{
    lemma_split_idx(s, ts);
    let i = split_idx(s, ts);
    let t = log_insert(s, ts, mile);
    if i < s.len() && s[i].timestamp == ts {
        assert forall|p: int, q: int| 0 <= p < q < t.len() implies t[p].timestamp
            < t[q].timestamp by {
            assert(s[p].timestamp < s[q].timestamp);
        }
    } else {
        assert forall|p: int, q: int| 0 <= p < q < t.len() implies t[p].timestamp
            < t[q].timestamp by {
            if p < i {
                assert(t[p] == s[p]);
            }
            if p > i {
                assert(t[p] == s[p - 1]);
            }
            if q < i {
                assert(t[q] == s[q]);
            }
            if q > i {
                assert(t[q] == s[q - 1]);
            }
        }
    }
}

/// Observations of one plate on one road.
pub struct RoadLog {
    pub entries: Vec<Obs>,
}

impl RoadLog {
    pub open spec fn wf(self) -> bool {
        sorted(self.entries@)
    }

    /// The split index for `ts`, found by a forward scan.
    pub fn locate(&self, ts: u32) -> (i: usize)
        requires
            self.wf(),
        ensures
            i == split_idx(self.entries@, ts),
    {
        let n = self.entries.len();
        let mut i: usize = 0;
        while i < n && self.entries[i].timestamp < ts
            invariant
                i <= n,
                n == self.entries@.len(),
                self.wf(),
                forall|j: int| 0 <= j < i ==> self.entries@[j].timestamp < ts,
            decreases n - i,
        {
            i += 1;
        }
        proof {
            lemma_split_idx(self.entries@, ts);
            let si = split_idx(self.entries@, ts);
            if i < si {
                assert(self.entries@[i as int].timestamp < ts);
                assert(false);
            }
            if i > si {
                assert(self.entries@[si].timestamp < ts);
                assert(false);
            }
        }
        i
    }
}

/// What `record` decides for a new observation against the state it found:
/// the chronologically ordered pair of observations that merits a ticket, or
/// nothing. A day already ticketed suppresses evaluation; otherwise the
/// immediate predecessor pairing is tried first, then the immediate
/// successor pairing.
pub open spec fn decision(log: Seq<Obs>, already_ticketed: bool, ts: u32, mile: u16, limit: u16) -> Option<
    (Obs, Obs),
> {
    let i = split_idx(log, ts);
    let newo = Obs { timestamp: ts, mile };
    if already_ticketed {
        None
    } else if i > 0 && is_violation(
        log[i - 1].timestamp as int,
        log[i - 1].mile as int,
        ts as int,
        mile as int,
        limit as int,
    ) {
        Some((log[i - 1], newo))
    } else if i < log.len() && is_violation(
        ts as int,
        mile as int,
        log[i].timestamp as int,
        log[i].mile as int,
        limit as int,
    ) {
        Some((newo, log[i]))
    } else {
        None
    }
}

/// A road-coverage record: per-road observation logs and the set of calendar
/// days on which this plate has already been ticketed.
pub struct Car {
    pub roads: Vec<(u16, RoadLog)>,
    pub days: Vec<u32>,
}

impl Car {
    pub open spec fn wf(self) -> bool {
        &&& forall|i: int, j: int|
            0 <= i < j < self.roads@.len() ==> self.roads@[i].0 != self.roads@[j].0
        &&& forall|i: int| 0 <= i < self.roads@.len() ==> self.roads@[i].1.wf()
    }

    /// The time-ordered observations of this plate on `road`; empty if none.
    pub open spec fn log_of(self, road: u16) -> Seq<Obs> {
        if key_idx(self.roads@, road) < self.roads@.len() {
            self.roads@[key_idx(self.roads@, road)].1.entries@
        } else {
            Seq::empty()
        }
    }

    /// Whether a ticket has been issued to this plate on calendar day `day`.
    pub open spec fn ticketed(self, day: u32) -> bool {
        self.days@.contains(day)
    }
}

/// First position whose key reads as the byte sequence `plate`, or the
/// length if there is none.
pub open spec fn plate_idx(s: Seq<(Vec<u8>, Car)>, plate: Seq<u8>) -> int
    decreases s.len(),
{
    if s.len() == 0 {
        0
    } else if s[0].0@ == plate {
        0
    } else {
        1 + plate_idx(s.drop_first(), plate)
    }
}

pub proof fn lemma_plate_idx(s: Seq<(Vec<u8>, Car)>, plate: Seq<u8>)
    ensures
        0 <= plate_idx(s, plate) <= s.len(),
        forall|j: int| 0 <= j < plate_idx(s, plate) ==> s[j].0@ != plate,
        plate_idx(s, plate) < s.len() ==> s[plate_idx(s, plate)].0@ == plate,
    decreases s.len(),
{
    if s.len() > 0 && s[0].0@ != plate {
        lemma_plate_idx(s.drop_first(), plate);
        assert forall|j: int| 0 <= j < plate_idx(s, plate) implies s[j].0@ != plate by {
            if j > 0 {
                assert(s.drop_first()[j - 1] == s[j]);
            }
        }
        if plate_idx(s, plate) < s.len() {
            assert(s.drop_first()[plate_idx(s.drop_first(), plate)] == s[plate_idx(s, plate)]);
        }
    }
}

/// Replacing an entry without changing its key moves no lookup.
pub proof fn lemma_plate_idx_update(s: Seq<(Vec<u8>, Car)>, i: int, v: (Vec<u8>, Car), plate: Seq<u8>)
    requires
        0 <= i < s.len(),
        v.0@ == s[i].0@,
    ensures
        plate_idx(s.update(i, v), plate) == plate_idx(s, plate),
    decreases s.len(),
{
    let t = s.update(i, v);
    if i == 0 {
        if s[0].0@ != plate {
            assert(t.drop_first() =~= s.drop_first());
        }
    } else {
        assert(t[0] == s[0]);
        if s[0].0@ != plate {
            assert(t.drop_first() =~= s.drop_first().update(i - 1, v));
            lemma_plate_idx_update(s.drop_first(), i - 1, v, plate);
        }
    }
}

/// Appending an entry leaves every present key where it was; a fresh key is
/// found at the end, and any other key stays absent.
pub proof fn lemma_plate_idx_push(s: Seq<(Vec<u8>, Car)>, v: (Vec<u8>, Car), plate: Seq<u8>)
    ensures
        plate_idx(s, plate) < s.len() ==> plate_idx(s.push(v), plate) == plate_idx(s, plate),
        plate_idx(s, plate) == s.len() && v.0@ == plate ==> plate_idx(s.push(v), plate) == s.len(),
        plate_idx(s, plate) == s.len() && v.0@ != plate ==> plate_idx(s.push(v), plate) == s.len()
            + 1,
    decreases s.len(),
{
    lemma_plate_idx(s, plate);
    if s.len() == 0 {
        assert(s.push(v).len() == 1);
        if v.0@ != plate {
            assert(s.push(v).drop_first() =~= s);
        }
    } else {
        assert(s.push(v)[0] == s[0]);
        if s[0].0@ != plate {
            assert(s.push(v).drop_first() =~= s.drop_first().push(v));
            lemma_plate_idx_push(s.drop_first(), v, plate);
        }
    }
}

/// The ticket `record` builds from the chronologically ordered pair that
/// the decision names.
pub open spec fn ticket_for(t: Ticket, plate: Seq<u8>, road: u16, pair: (Obs, Obs)) -> bool {
    &&& t.plate@ == plate
    &&& t.road == road
    &&& t.timestamp1 == pair.0.timestamp
    &&& t.mile1 == pair.0.mile
    &&& t.timestamp2 == pair.1.timestamp
    &&& t.mile2 == pair.1.mile
    &&& t.timestamp1 < t.timestamp2
    &&& t.speed as int == reported_speed(
        pair.0.timestamp as int,
        pair.0.mile as int,
        pair.1.timestamp as int,
        pair.1.mile as int,
    )
    &&& t.wf()
}

/// Byte-for-byte equality of two plates.
fn bytes_eq(a: &Vec<u8>, b: &Vec<u8>) -> (r: bool)
    ensures
        r == (a@ == b@),
{
    if a.len() != b.len() {
        return false;
    }
    let n = a.len();
    let mut i: usize = 0;
    while i < n
        invariant
            i <= n,
            n == a@.len(),
            n == b@.len(),
            forall|j: int| 0 <= j < i ==> a@[j] == b@[j],
        decreases n - i,
    {
        if a[i] != b[i] {
            return false;
        }
        i += 1;
    }
    proof {
        assert(a@ =~= b@);
    }
    true
}

/// The shared map of car records, keyed by plate.
pub struct Store {
    pub cars: Vec<(Vec<u8>, Car)>,
}

impl Store {
    pub open spec fn wf(self) -> bool {
        &&& forall|i: int, j: int|
            0 <= i < j < self.cars@.len() ==> self.cars@[i].0@ != self.cars@[j].0@
        &&& forall|i: int| 0 <= i < self.cars@.len() ==> self.cars@[i].1.wf()
    }

    /// The time-ordered observations of `plate` on `road`; empty if none.
    pub open spec fn log_of(self, plate: Seq<u8>, road: u16) -> Seq<Obs> {
        if plate_idx(self.cars@, plate) < self.cars@.len() {
            self.cars@[plate_idx(self.cars@, plate)].1.log_of(road)
        } else {
            Seq::empty()
        }
    }

    /// Whether `plate` has already been ticketed on calendar day `day`.
    pub open spec fn ticketed(self, plate: Seq<u8>, day: u32) -> bool {
        plate_idx(self.cars@, plate) < self.cars@.len() && self.cars@[plate_idx(
            self.cars@,
            plate,
        )].1.ticketed(day)
    }

    /// An empty store: no observations, no ticketed days.
    pub fn new() -> (s: Store)
        ensures
            s.wf(),
            forall|p: Seq<u8>, rd: u16| s.log_of(p, rd) == Seq::<Obs>::empty(),
            forall|p: Seq<u8>, d: u32| !s.ticketed(p, d),
    {
        Store { cars: Vec::new() }
    }

    /// The position of the car record for `plate`, by a forward scan.
    fn find_car(&self, plate: &Vec<u8>) -> (i: usize)
        ensures
            i == plate_idx(self.cars@, plate@),
    {
        let n = self.cars.len();
        let mut i: usize = 0;
        while i < n
            invariant
                i <= n,
                n == self.cars@.len(),
                forall|j: int| 0 <= j < i ==> self.cars@[j].0@ != plate@,
            decreases n - i,
        {
            let e = &self.cars[i];
            if bytes_eq(&e.0, plate) {
                proof {
                    lemma_plate_idx(self.cars@, plate@);
                    let pi = plate_idx(self.cars@, plate@);
                    if pi < i {
                        assert(self.cars@[pi].0@ != plate@);
                        assert(false);
                    }
                    if pi > i {
                        assert(self.cars@[i as int].0@ != plate@);
                        assert(false);
                    }
                }
                return i;
            }
            i += 1;
        }
        proof {
            lemma_plate_idx(self.cars@, plate@);
            let pi = plate_idx(self.cars@, plate@);
            if pi < n {
                assert(self.cars@[pi].0@ != plate@);
                assert(false);
            }
        }
        n
    }

    /// Record one position report, atomically with respect to this store
    /// value: look up the chronological neighbours of the new observation,
    /// evaluate the predecessor pairing then the successor pairing unless
    /// the calendar day is already ticketed, mark the day on a ticket, and
    /// insert the observation (overwriting an entry at the same timestamp).
    pub fn record(
        &mut self,
        plate: &Vec<u8>,
        road: u16,
        timestamp: u32,
        mile: u16,
        limit: u16,
    ) -> (r: Option<Ticket>)
        requires
            old(self).wf(),
            plate@.len() <= 255,
        ensures
            final(self).wf(),
            final(self).log_of(plate@, road) == log_insert(
                old(self).log_of(plate@, road),
                timestamp,
                mile,
            ),
            forall|p: Seq<u8>, rd: u16|
                !(p == plate@ && rd == road) ==> final(self).log_of(p, rd) == old(self).log_of(
                    p,
                    rd,
                ),
            ({
                let dec = decision(
                    old(self).log_of(plate@, road),
                    old(self).ticketed(plate@, timestamp / 86400),
                    timestamp,
                    mile,
                    limit,
                );
                &&& (r is Some <==> dec is Some)
                &&& (r matches Some(t) ==> (dec matches Some(pair) && ticket_for(
                    t,
                    plate@,
                    road,
                    pair,
                )))
                &&& forall|p: Seq<u8>, d: u32|
                    final(self).ticketed(p, d) <==> (old(self).ticketed(p, d) || (dec is Some && p
                        == plate@ && d == timestamp / 86400))
            }),
    {
        let ghost s0 = *old(self);
        let ghost cars0 = s0.cars@;
        let day: u32 = timestamp / 86400;
        let ci = self.find_car(plate);
        proof {
            lemma_plate_idx(cars0, plate@);
        }
        let existed_car = ci < self.cars.len();
        let (key, mut car): (Vec<u8>, Car) = if existed_car {
            self.cars.remove(ci)
        } else {
            (plate.clone(), Car { roads: Vec::new(), days: Vec::new() })
        };
        proof {
            assert(key@ =~= plate@);
            assert(car.wf());
        }
        let ghost car0 = car;
        let ri = find_road(&car.roads, road);
        proof {
            lemma_key_idx(car0.roads@, road);
        }
        let existed_road = ri < car.roads.len();
        let (_rkey, mut log): (u16, RoadLog) = if existed_road {
            car.roads.remove(ri)
        } else {
            (road, RoadLog { entries: Vec::new() })
        };
        let ghost log0 = log.entries@;
        proof {
            assert(log0 == s0.log_of(plate@, road));
            assert(log.wf());
        }
        let already = contains_day(&car.days, day);
        proof {
            assert(already == s0.ticketed(plate@, day));
        }
        let i = log.locate(timestamp);
        proof {
            lemma_split_idx(log0, timestamp);
        }
        let mut ticket: Option<Ticket> = None;
        if !already {
            if i > 0 {
                let prev = log.entries[i - 1];
                ticket = evaluate(plate, road, prev.timestamp, prev.mile, timestamp, mile, limit);
            }
            if ticket.is_none() && i < log.entries.len() {
                let nxt = log.entries[i];
                ticket = evaluate(plate, road, timestamp, mile, nxt.timestamp, nxt.mile, limit);
            }
            if ticket.is_some() {
                car.days.push(day);
            }
        }
        let ghost dec = decision(log0, already, timestamp, mile, limit);
        proof {
            assert((ticket is Some) <==> (dec is Some));
            assert(car.days@ == if dec is Some {
                car0.days@.push(day)
            } else {
                car0.days@
            });
        }
        if i < log.entries.len() && log.entries[i].timestamp == timestamp {
            log.entries.set(i, Obs { timestamp, mile });
        } else {
            log.entries.insert(i, Obs { timestamp, mile });
        }
        proof {
            lemma_log_insert_sorted(log0, timestamp, mile);
            assert(log.entries@ == log_insert(log0, timestamp, mile));
        }
        let ghost log_f = log;
        car.roads.insert(ri, (road, log));
        let ghost car_f = car;
        proof {
            if existed_road {
                assert(car_f.roads@ =~= car0.roads@.update(ri as int, (road, log_f)));
            } else {
                assert(car_f.roads@ =~= car0.roads@.push((road, log_f)));
            }
            // the rebuilt record is well-formed and reads back as intended
            if existed_road {
                lemma_key_idx_update(car0.roads@, ri as int, (road, log_f), road);
            } else {
                lemma_key_idx_push(car0.roads@, (road, log_f), road);
            }
            assert(key_idx(car_f.roads@, road) == ri as int);
            assert(car_f.log_of(road) == log_insert(log0, timestamp, mile));
            assert forall|rd: u16| rd != road implies car_f.log_of(rd) == car0.log_of(rd) by {
                lemma_key_idx(car0.roads@, rd);
                if existed_road {
                    lemma_key_idx_update(car0.roads@, ri as int, (road, log_f), rd);
                } else {
                    lemma_key_idx_push(car0.roads@, (road, log_f), rd);
                }
            }
            assert(car_f.wf()) by {
                assert forall|a: int, b: int|
                    0 <= a < b < car_f.roads@.len() implies car_f.roads@[a].0
                    != car_f.roads@[b].0 by {
                    if existed_road {
                        assert(car_f.roads@[a].0 == car0.roads@[a].0);
                        assert(car_f.roads@[b].0 == car0.roads@[b].0);
                    } else {
                        if b < car0.roads@.len() {
                        } else {
                            assert(car_f.roads@[b].0 == road);
                            assert(car0.roads@[a].0 != road);
                        }
                    }
                }
            }
        }
        let ghost entry_f = (key, car);
        self.cars.insert(ci, (key, car));
        proof {
            let cars_f = self.cars@;
            if existed_car {
                assert(cars_f =~= cars0.update(ci as int, entry_f));
                lemma_plate_idx_update(cars0, ci as int, entry_f, plate@);
            } else {
                assert(cars_f =~= cars0.push(entry_f));
                lemma_plate_idx_push(cars0, entry_f, plate@);
            }
            assert(plate_idx(cars_f, plate@) == ci as int);
            assert(self.log_of(plate@, road) == log_insert(log0, timestamp, mile));

            // every other plate-and-road pair reads back unchanged
            assert forall|p: Seq<u8>, rd: u16|
                !(p == plate@ && rd == road) implies self.log_of(p, rd) == s0.log_of(p, rd) by {
                if p == plate@ {
                    assert(self.log_of(p, rd) == car_f.log_of(rd));
                    assert(car_f.log_of(rd) == car0.log_of(rd));
                    if !existed_car {
                        lemma_key_idx(car0.roads@, rd);
                    }
                } else {
                    lemma_plate_idx(cars0, p);
                    if existed_car {
                        lemma_plate_idx_update(cars0, ci as int, entry_f, p);
                    } else {
                        lemma_plate_idx_push(cars0, entry_f, p);
                    }
                }
            }

            // day bookkeeping reads back as the decision dictates
            assert forall|p: Seq<u8>, d: u32|
                self.ticketed(p, d) <==> (s0.ticketed(p, d) || (dec is Some && p == plate@ && d
                    == day)) by {
                if p == plate@ {
                    if dec is Some {
                        lemma_push_contains(car0.days@, day, d);
                    }
                } else {
                    lemma_plate_idx(cars0, p);
                    if existed_car {
                        lemma_plate_idx_update(cars0, ci as int, entry_f, p);
                    } else {
                        lemma_plate_idx_push(cars0, entry_f, p);
                    }
                }
            }

            // the table keys are still distinct and every record well-formed
            assert(self.wf()) by {
                assert forall|a: int, b: int|
                    0 <= a < b < cars_f.len() implies cars_f[a].0@ != cars_f[b].0@ by {
                    if existed_car {
                        assert(cars_f[a].0@ == cars0[a].0@);
                        assert(cars_f[b].0@ == cars0[b].0@);
                    } else {
                        if b < cars0.len() {
                        } else {
                            assert(cars_f[b].0@ == plate@);
                            assert(cars0[a].0@ != plate@);
                        }
                    }
                }
            }
        }
        ticket
    }
}

/// The position of the log for `road`, by a forward scan.
fn find_road(roads: &Vec<(u16, RoadLog)>, road: u16) -> (i: usize)
    ensures
        i == key_idx(roads@, road),
{
    let n = roads.len();
    let mut i: usize = 0;
    while i < n
        invariant
            i <= n,
            n == roads@.len(),
            forall|j: int| 0 <= j < i ==> roads@[j].0 != road,
        decreases n - i,
    {
        if roads[i].0 == road {
            proof {
                lemma_key_idx(roads@, road);
                let ri = key_idx(roads@, road);
                if ri < i {
                    assert(roads@[ri].0 != road);
                    assert(false);
                }
                if ri > i {
                    assert(roads@[i as int].0 != road);
                    assert(false);
                }
            }
            return i;
        }
        i += 1;
    }
    proof {
        lemma_key_idx(roads@, road);
        let ri = key_idx(roads@, road);
        if ri < n {
            assert(roads@[ri].0 != road);
            assert(false);
        }
    }
    n
}

/// Law: a plate never receives two tickets for one calendar day. `record`
/// marks the day the moment it issues a ticket, and its day bookkeeping
/// only grows; so in any later store state whose day set for the plate has
/// only grown, an observation on the same calendar day yields no ticket —
/// whatever road it arrives on, in whatever order the observations came,
/// and whatever the log or the limit there looks like.
pub proof fn lemma_one_ticket_per_day(
    earlier: Store,
    later: Store,
    plate: Seq<u8>,
    ts1: u32,
    ts2: u32,
    road2: u16,
    mile2: u16,
    limit2: u16,
)
    requires
        earlier.ticketed(plate, ts1 / 86400),
        forall|d: u32| earlier.ticketed(plate, d) ==> later.ticketed(plate, d),
        ts2 / 86400 == ts1 / 86400,
    ensures
        decision(
            later.log_of(plate, road2),
            later.ticketed(plate, ts2 / 86400),
            ts2,
            mile2,
            limit2,
        ) is None,
{
}

/// Whether `day` is among the ticketed days.
fn contains_day(days: &Vec<u32>, day: u32) -> (r: bool)
    ensures
        r == days@.contains(day),
{
    let n = days.len();
    let mut i: usize = 0;
    while i < n
        invariant
            i <= n,
            n == days@.len(),
            forall|j: int| 0 <= j < i ==> days@[j] != day,
        decreases n - i,
    {
        if days[i] == day {
            return true;
        }
        i += 1;
    }
    false
}

} // verus!
