//! The speed evaluator: decides whether a pair of observations of one plate
//! on one road merits a speeding ticket, and builds the ticket.

use vstd::prelude::*;

verus! {

/// A speeding citation. `(timestamp1, mile1)` is the chronologically earlier
/// of the two observations that triggered it; `speed` is miles per hour
/// times one hundred, truncated to an integer and capped at what the 16-bit
/// wire field can carry.
#[derive(Debug)]
pub struct Ticket {
    pub plate: Vec<u8>,
    pub road: u16,
    pub mile1: u16,
    pub timestamp1: u32,
    pub mile2: u16,
    pub timestamp2: u32,
    pub speed: u16,
}

impl Ticket {
    /// The wire format length-prefixes the plate with a single byte.
    pub open spec fn wf(self) -> bool {
        self.plate@.len() <= 255
    }
}

/// `|a - b|` over mathematical integers.
pub open spec fn abs_diff(a: int, b: int) -> int {
    if a >= b {
        a - b
    } else {
        b - a
    }
}

/// Average speed of the pair in hundredths of a mile per hour, truncated.
/// The exact rational speed is `3600 * dm / dt` mph for a distance of `dm`
/// miles covered in `dt` seconds, hence `360000 * dm / dt` hundredths.
pub open spec fn speed_hundredths(t1: int, m1: int, t2: int, m2: int) -> int
    recommends
        t1 != t2,
{
    360000 * abs_diff(m1, m2) / abs_diff(t1, t2)
}

/// The speed figure a ticket reports: hundredths of a mile per hour,
/// saturated at the largest value the 16-bit wire field holds.
pub open spec fn reported_speed(t1: int, m1: int, t2: int, m2: int) -> int
    recommends
        t1 != t2,
{
    if speed_hundredths(t1, m1, t2, m2) > 65535 {
        65535
    } else {
        speed_hundredths(t1, m1, t2, m2)
    }
}

/// A pair of observations merits a ticket exactly when the average speed
/// exceeds the posted limit by at least half a mile per hour:
/// `3600 * dm / dt >= limit + 1/2`, cleared of fractions as
/// `7200 * dm >= (2 * limit + 1) * dt`. Two observations at the same
/// timestamp determine no speed and never merit a ticket.
pub open spec fn is_violation(t1: int, m1: int, t2: int, m2: int, limit: int) -> bool {
    t1 != t2 && 7200 * abs_diff(m1, m2) >= (2 * limit + 1) * abs_diff(t1, t2)
}

/// Law: the tolerance band and the speed reading agree. For observations
/// at distinct timestamps, a ticket is merited exactly when the truncated
/// reading in hundredths of a mile per hour reaches the limit's hundredths
/// plus fifty — that is, when the exact average speed exceeds the posted
/// limit by at least half a mile per hour.
pub proof fn lemma_violation_iff_speed(t1: int, m1: int, t2: int, m2: int, limit: int)
    requires
        t1 != t2,
        limit >= 0,
    ensures
        is_violation(t1, m1, t2, m2, limit) <==> speed_hundredths(t1, m1, t2, m2) >= 100 * limit
            + 50,
{
    let d = abs_diff(m1, m2);
    let dt = abs_diff(t1, t2);
    let q = 360000 * d / dt;
    let r = 360000 * d % dt;
    vstd::arithmetic::div_mod::lemma_fundamental_div_mod(360000 * d, dt);
    vstd::arithmetic::div_mod::lemma_mod_division_less_than_divisor(360000 * d, dt);
    assert((7200 * d >= (2 * limit + 1) * dt) <==> (q >= 100 * limit + 50)) by (nonlinear_arith)
        requires
            360000 * d == dt * q + r,
            0 <= r < dt,
            limit >= 0,
            dt > 0,
            d >= 0,
    ;
}

/// Decide whether the pair of observations `(t_a, m_a)` and `(t_b, m_b)` of
/// `plate` on `road` merits a ticket against `limit`, and build it if so,
/// ordering the pair chronologically.
pub fn evaluate(
    plate: &Vec<u8>,
    road: u16,
    t_a: u32,
    m_a: u16,
    t_b: u32,
    m_b: u16,
    limit: u16,
) -> (r: Option<Ticket>)
    ensures
        r is Some <==> is_violation(t_a as int, m_a as int, t_b as int, m_b as int, limit as int),
        r matches Some(t) ==> {
            &&& t.plate@ == plate@
            &&& t.road == road
            &&& if t_a <= t_b {
                t.timestamp1 == t_a && t.mile1 == m_a && t.timestamp2 == t_b && t.mile2 == m_b
            } else {
                t.timestamp1 == t_b && t.mile1 == m_b && t.timestamp2 == t_a && t.mile2 == m_a
            }
            &&& t.speed as int == reported_speed(
                t_a as int,
                m_a as int,
                t_b as int,
                m_b as int,
            )
        },
{
    if t_a == t_b {
        return None;
    }
    let (t1, m1, t2, m2) = if t_a <= t_b {
        (t_a, m_a, t_b, m_b)
    } else {
        (t_b, m_b, t_a, m_a)
    };
    let dt: u64 = (t2 - t1) as u64;
    let dm: u64 = if m2 >= m1 {
        (m2 - m1) as u64
    } else {
        (m1 - m2) as u64
    };
    proof {
        assert((2 * (limit as int) + 1) * (dt as int) <= 131071 * 0xffff_ffff)
            by (nonlinear_arith)
            requires
                limit <= 65535,
                dt <= 0xffff_ffff,
        ;
    }
    if 7200 * dm >= (2 * (limit as u64) + 1) * dt {
        let raw: u64 = 360000 * dm / dt;
        let speed: u16 = if raw > 65535 {
            65535
        } else {
            raw as u16
        };
        let mut plate_copy = plate.clone();
        proof {
            assert(plate_copy@ =~= plate@);
        }
        Some(
            Ticket {
                plate: plate_copy,
                road,
                mile1: m1,
                timestamp1: t1,
                mile2: m2,
                timestamp2: t2,
                speed,
            },
        )
    } else {
        None
    }
}

} // verus!
