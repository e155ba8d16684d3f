//! Media timestamps to release deadlines.
//!
//! Media timestamps and deadlines share one unit (the stream's tick); deadlines
//! count ticks on the caller's monotonic clock. The clock never sleeps: it only
//! decides when a unit is due.
use vstd::prelude::*;

verus! {

/// `a + b`, or `u64::MAX` where that does not fit.
pub open spec fn sat_add(a: u64, b: int) -> u64 {
    if a + b > u64::MAX {
        u64::MAX
    } else {
        (a + b) as u64
    }
}

/// One pacing decision. From the anchor `(last media timestamp, last
/// deadline)`, if any, the media timestamp `media_ts` and the current time
/// `now`, the next anchor and the deadline handed out.
pub open spec fn pacing_step(anchor: Option<(i64, u64)>, media_ts: i64, now: u64) -> (
    Option<(i64, u64)>,
    u64,
) {
    match anchor {
        None => (Some((media_ts, now)), now),
        Some((last_ts, last_deadline)) => {
            if media_ts <= last_ts {
                (anchor, last_deadline)
            } else {
                let d = sat_add(last_deadline, media_ts - last_ts);
                (Some((media_ts, d)), d)
            }
        },
    }
}

/// The anchor left and the deadlines handed out by calls with the media
/// timestamps `ts`, the i-th made at time `nows[i]`, from `anchor`.
pub open spec fn pace_all(anchor: Option<(i64, u64)>, ts: Seq<i64>, nows: Seq<u64>) -> (
    Option<(i64, u64)>,
    Seq<u64>,
)
    recommends
        ts.len() == nows.len(),
    decreases ts.len(),
{
    if ts.len() == 0 || nows.len() == 0 {
        (anchor, Seq::empty())
    } else {
        let (next, d) = pacing_step(anchor, ts[0], nows[0]);
        let rest = pace_all(next, ts.drop_first(), nows.drop_first());
        (rest.0, seq![d] + rest.1)
    }
}

/// The pacing state of one stream.
pub struct PacingClock {
    anchor: Option<(i64, u64)>,
}

impl View for PacingClock {
    type V = Option<(i64, u64)>;

    closed spec fn view(&self) -> Option<(i64, u64)> {
        self.anchor
    }
}

impl PacingClock {
    /// A clock with no anchor yet.
    pub fn new() -> (r: Self)
        ensures
            r@ == None::<(i64, u64)>,
    {
        PacingClock { anchor: None }
    }

    /// The current anchor: the last accepted media timestamp and its deadline.
    pub fn anchor(&self) -> (r: Option<(i64, u64)>)
        ensures
            r == self@,
    {
        self.anchor
    }

    /// Forgets the anchor, as when the stream is set up anew.
    pub fn reset(&mut self)
        ensures
            final(self)@ == None::<(i64, u64)>,
    {
        self.anchor = None;
    }

    /// The deadline for the unit with media timestamp `media_ts`, asked at
    /// time `now`. The first call anchors the stream at `now` and returns it.
    /// A later timestamp is due its distance from the anchor's timestamp after
    /// the anchor's deadline, and becomes the anchor. A timestamp that is not
    /// later than the anchor's gets the anchor's deadline and leaves the anchor
    /// as it is.
    pub fn next_deadline(&mut self, media_ts: i64, now: u64) -> (r: u64)
        ensures
            (final(self)@, r) == pacing_step(old(self)@, media_ts, now),
    {
        match self.anchor {
            None => {
                self.anchor = Some((media_ts, now));
                now
            },
            Some((last_ts, last_deadline)) => {
                if media_ts <= last_ts {
                    last_deadline
                } else {
                    let delta = (media_ts as i128 - last_ts as i128) as u64;
                    let d = last_deadline.saturating_add(delta);
                    self.anchor = Some((media_ts, d));
                    d
                }
            },
        }
    }
}

/// From an anchor `(a, d)`, timestamps that increase strictly past `a` are due
/// exactly their distance from `a` after `d`, as long as that fits.
proof fn lemma_pace_from_anchor(a: i64, d: u64, ts: Seq<i64>, nows: Seq<u64>)
    requires
        ts.len() == nows.len(),
        forall|i: int| 0 <= i < ts.len() ==> a < #[trigger] ts[i],
        forall|i: int, j: int| 0 <= i < j < ts.len() ==> ts[i] < ts[j],
        ts.len() > 0 ==> d + (ts[ts.len() - 1] - a) <= u64::MAX,
    ensures
        pace_all(Some((a, d)), ts, nows).1.len() == ts.len(),
        forall|i: int|
            0 <= i < ts.len() ==> pace_all(Some((a, d)), ts, nows).1[i] == d + (ts[i] - a),
    decreases ts.len(),
{
    if ts.len() > 0 {
        let t0 = ts[0];
        let d0 = (d + (t0 - a)) as u64;
        let rest_ts = ts.drop_first();
        let rest_nows = nows.drop_first();
        if ts.len() > 1 {
            assert(ts[0] < ts[ts.len() - 1]);
        }
        assert forall|i: int, j: int| 0 <= i < j < rest_ts.len() implies rest_ts[i]
            < rest_ts[j] by {
            assert(rest_ts[i] == ts[i + 1] && rest_ts[j] == ts[j + 1]);
        }
        assert forall|i: int| 0 <= i < rest_ts.len() implies t0 < #[trigger] rest_ts[i] by {
            assert(rest_ts[i] == ts[i + 1]);
        }
        lemma_pace_from_anchor(t0, d0, rest_ts, rest_nows);
        let out = pace_all(Some((a, d)), ts, nows).1;
        let rest = pace_all(Some((t0, d0)), rest_ts, rest_nows).1;
        assert(out == seq![d0] + rest);
        assert forall|i: int| 0 <= i < ts.len() implies out[i] == d + (ts[i] - a) by {
            if i > 0 {
                assert(out[i] == rest[i - 1]);
                assert(rest_ts[i - 1] == ts[i]);
            }
        }
    }
}

/// For strictly increasing media timestamps `t0 < t1 < ... < tn` fed to a new
/// clock whose first call comes at time `s`, the i-th deadline is exactly
/// `s + (ti - t0)` (the last one being representable).
pub proof fn lemma_monotonic_deadlines(ts: Seq<i64>, nows: Seq<u64>)
    requires
        ts.len() == nows.len(),
        ts.len() > 0,
        forall|i: int, j: int| 0 <= i < j < ts.len() ==> ts[i] < ts[j],
        nows[0] + (ts[ts.len() - 1] - ts[0]) <= u64::MAX,
    ensures
        pace_all(None, ts, nows).1.len() == ts.len(),
        forall|i: int|
            0 <= i < ts.len() ==> pace_all(None, ts, nows).1[i] == nows[0] + (ts[i] - ts[0]),
{
    let s = nows[0];
    let t0 = ts[0];
    let rest_ts = ts.drop_first();
    let rest_nows = nows.drop_first();
    assert forall|i: int, j: int| 0 <= i < j < rest_ts.len() implies rest_ts[i]
        < rest_ts[j] by {
        assert(rest_ts[i] == ts[i + 1] && rest_ts[j] == ts[j + 1]);
    }
    assert forall|i: int| 0 <= i < rest_ts.len() implies t0 < #[trigger] rest_ts[i] by {
        assert(rest_ts[i] == ts[i + 1]);
    }
    lemma_pace_from_anchor(t0, s, rest_ts, rest_nows);
    let out = pace_all(None, ts, nows).1;
    let rest = pace_all(Some((t0, s)), rest_ts, rest_nows).1;
    assert(out == seq![s] + rest);
    assert forall|i: int| 0 <= i < ts.len() implies out[i] == s + (ts[i] - t0) by {
        if i > 0 {
            assert(out[i] == rest[i - 1]);
            assert(rest_ts[i - 1] == ts[i]);
        }
    }
}

/// A timestamp that is not later than the one before it gets the same
/// deadline as that one, and the anchor stays as it was.
pub proof fn lemma_anomaly_guard(
    anchor: Option<(i64, u64)>,
    prev_ts: i64,
    prev_now: u64,
    ts: i64,
    now: u64,
)
    requires
        ts <= prev_ts,
    ensures
        ({
            let (a1, d1) = pacing_step(anchor, prev_ts, prev_now);
            let (a2, d2) = pacing_step(a1, ts, now);
            d2 == d1 && a2 == a1
        }),
{
}

} // verus!
