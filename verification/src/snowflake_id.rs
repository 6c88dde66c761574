use vstd::prelude::*;

verus! {

use crate::IdError;

/// Milliseconds of the custom epoch (2010-11-04T01:42:54.657Z) that is
/// subtracted from the wall clock before packing an id.
pub const TWITTER_EPOCH: i64 = 1288834974657;

/// Largest value the 41-bit timestamp field can hold.
pub const MAX_TIMESTAMP_DELTA: i64 = 0x1FF_FFFF_FFFF;

/// Largest value of the 12-bit sequence field.
pub const MAX_SEQUENCE: u16 = 0xFFF;

/// The timestamp field of an id issued at wall-clock millisecond `ts`:
/// the distance to the custom epoch, saturated into 41 bits.
pub open spec fn ts_field(ts: int) -> int {
    if ts <= TWITTER_EPOCH {
        0
    } else if ts - TWITTER_EPOCH > MAX_TIMESTAMP_DELTA {
        MAX_TIMESTAMP_DELTA as int
    } else {
        ts - TWITTER_EPOCH
    }
}

/// The id issued for worker `worker` at millisecond `ts` with sequence
/// number `seq`: 41 bits of timestamp, 10 bits of worker id, 12 bits of
/// sequence, most significant first.
pub open spec fn id_of(worker: int, ts: int, seq: int) -> int {
    ts_field(ts) * 0x40_0000 + (worker % 0x400) * 0x1000 + seq
}

/// A stateful generator of 64-bit sortable ids. One instance issues
/// strictly increasing ids as long as the wall clock never runs backwards.
pub struct SnowflakeIdGenerator {
    pub worker_id: u16,
    pub last_timestamp: i64,
    pub sequence: u16,
}

impl SnowflakeIdGenerator {
    /// The state invariant: the sequence counter fits in its 12-bit field.
    pub open spec fn wf(self) -> bool {
        self.sequence <= MAX_SEQUENCE
    }

    pub fn new() -> (r: Self)
        ensures
            r.worker_id == 0,
            r.last_timestamp == 0,
            r.sequence == 0,
            r.wf(),
    {
        SnowflakeIdGenerator { worker_id: 0, last_timestamp: 0, sequence: 0 }
    }

    /// Pack the current worker id and sequence with timestamp `ts` into an id.
    fn pack(&self, ts: i64) -> (id: i64)
        requires
            self.wf(),
        ensures
            id == id_of(self.worker_id as int, ts as int, self.sequence as int),
            id >= 0,
    {
        let delta: i64 = if ts <= TWITTER_EPOCH {
            0
        } else if ts - TWITTER_EPOCH > MAX_TIMESTAMP_DELTA {
            MAX_TIMESTAMP_DELTA
        } else {
            ts - TWITTER_EPOCH
        };
        let worker: i64 = (self.worker_id as i64) % 0x400;
        delta * 0x40_0000 + worker * 0x1000 + (self.sequence as i64)
    }

    /// The deterministic core of `generate`: issue an id for the wall-clock
    /// reading `now`. Returns `None` exactly when `now` is behind the stored
    /// timestamp (a clock regression) or when the 4096 ids of millisecond
    /// `now` are already spent; the state is unchanged in both cases.
    pub fn generate_at(&mut self, now: i64) -> (r: Option<i64>)
        requires
            old(self).wf(),
        ensures
            final(self).wf(),
            final(self).worker_id == old(self).worker_id,
            r is None <==> (now < old(self).last_timestamp
                || (now == old(self).last_timestamp && old(self).sequence == MAX_SEQUENCE)),
            r is None ==> *final(self) == *old(self),
            r matches Some(id) ==> {
                &&& final(self).last_timestamp == now
                &&& (now == old(self).last_timestamp
                    ==> final(self).sequence == old(self).sequence + 1)
                &&& (now > old(self).last_timestamp ==> final(self).sequence == 0)
                &&& id == id_of(old(self).worker_id as int, now as int, final(self).sequence as int)
                &&& id >= 0
            },
    {
        if now < self.last_timestamp {
            return None;
        }
        if now == self.last_timestamp {
            if self.sequence == MAX_SEQUENCE {
                return None;
            }
            self.sequence = self.sequence + 1;
        } else {
            self.sequence = 0;
        }
        self.last_timestamp = now;
        Some(self.pack(now))
    }

    /// Issue a fresh id from the wall clock. Fails with `ClockRegression`
    /// when the clock reads earlier than the last issued timestamp, and with
    /// `SystemClockUnavailable` when the clock cannot be read; the state is
    /// unchanged on failure. On success the pair (last_timestamp, sequence)
    /// strictly increases lexicographically, which keeps ids unique.
    pub fn generate(&mut self) -> (r: Result<i64, IdError>)
        requires
            old(self).wf(),
        ensures
            final(self).wf(),
            final(self).worker_id == old(self).worker_id,
            r matches Err(_) ==> *final(self) == *old(self),
            r matches Ok(id) ==> {
                &&& (final(self).last_timestamp > old(self).last_timestamp
                    || (final(self).last_timestamp == old(self).last_timestamp
                        && final(self).sequence > old(self).sequence))
                &&& id == id_of(
                    final(self).worker_id as int,
                    final(self).last_timestamp as int,
                    final(self).sequence as int,
                )
                &&& id >= 0
            },
    {
        let now = match Self::current_time_millis() {
            Some(t) => t,
            None => { return Err(IdError::SystemClockUnavailable) },
        };
        if now < self.last_timestamp {
            return Err(IdError::ClockRegression);
        }
        match self.generate_at(now) {
            Some(id) => Ok(id),
            None => {
                // The sequence of this millisecond is spent: block until the
                // clock ticks past the stored timestamp, then issue there.
                let t = match Self::wait_for_next_millis(self.last_timestamp) {
                    Some(t) => t,
                    None => { return Err(IdError::SystemClockUnavailable) },
                };
                match self.generate_at(t) {
                    Some(id) => Ok(id),
                    None => Err(IdError::SystemClockUnavailable),  // never taken: t is ahead of the stored timestamp
                }
            },
        }
    }

    /// Relies on std::time::SystemTime::now and its duration_since(UNIX_EPOCH):
    /// the wall clock as whole milliseconds since the Unix epoch, `None` when
    /// the clock reads earlier than the Unix epoch or past what an i64 holds.
    #[verifier::external_body]
    pub fn current_time_millis() -> (r: Option<i64>)
        ensures
            r matches Some(t) ==> t >= 0,
    {
        match std::time::SystemTime::now().duration_since(std::time::UNIX_EPOCH) {
            Ok(d) => match i64::try_from(d.as_millis()) {
                Ok(t) => Some(t),
                Err(_) => None,
            },
            Err(_) => None,
        }
    }

    /// Poll the wall clock until it reads strictly later than `last_timestamp`.
    /// Returns `None` only if the clock becomes unreadable, or stands still
    /// for so many polls that it must be considered stuck.
    pub fn wait_for_next_millis(last_timestamp: i64) -> (r: Option<i64>)
        ensures
            r matches Some(t) ==> t > last_timestamp,
    {
        let mut polls_left: u64 = 0xFFFF_FFFF_FFFF_FFFF;
        while polls_left > 0
            decreases polls_left,
        {
            polls_left = polls_left - 1;
            match Self::current_time_millis() {
                None => { return None },
                Some(t) => {
                    if t > last_timestamp {
                        return Some(t);
                    }
                },
            }
        }
        None
    }

    /// Split a nonnegative id into its (timestamp delta, worker id, sequence)
    /// fields, the inverse of the packing formula.
    pub fn decompose(id: i64) -> (r: (i64, u16, u16))
        requires
            id >= 0,
        ensures
            r.0 == id as int / 0x40_0000,
            r.1 == (id as int / 0x1000) % 0x400,
            r.2 == id as int % 0x1000,
    {
        let ts = id / 0x40_0000;
        let w = ((id / 0x1000) % 0x400) as u16;
        let s = (id % 0x1000) as u16;
        (ts, w, s)
    }
}

/// Law: an id decomposes losslessly into the fields it was packed from:
/// dividing out the three fields of `id_of(worker, ts, seq)` gives back
/// `ts_field(ts)`, `worker % 0x400` and `seq`.
pub proof fn lemma_id_decompose(worker: int, ts: int, seq: int)
    requires
        0 <= worker,
        0 <= seq < 0x1000,
    ensures
        id_of(worker, ts, seq) / 0x40_0000 == ts_field(ts),
        (id_of(worker, ts, seq) / 0x1000) % 0x400 == worker % 0x400,
        id_of(worker, ts, seq) % 0x1000 == seq,
{
    let a = ts_field(ts);
    let w = worker % 0x400;
    let id = id_of(worker, ts, seq);
    assert(0 <= a <= MAX_TIMESTAMP_DELTA);
    assert(0 <= w < 0x400) by {
        vstd::arithmetic::div_mod::lemma_mod_bound(worker, 0x400);
    }
    assert(id == (a * 0x400 + w) * 0x1000 + seq) by (nonlinear_arith)
        requires
            id == a * 0x40_0000 + w * 0x1000 + seq,
    ;
    vstd::arithmetic::div_mod::lemma_fundamental_div_mod_converse(
        id,
        0x1000,
        a * 0x400 + w,
        seq,
    );
    vstd::arithmetic::div_mod::lemma_fundamental_div_mod_converse(a * 0x400 + w, 0x400, a, w);
    assert(id == a * 0x40_0000 + (w * 0x1000 + seq)) by (nonlinear_arith)
        requires
            id == a * 0x40_0000 + w * 0x1000 + seq,
    ;
    assert(0 <= w * 0x1000 + seq < 0x40_0000) by (nonlinear_arith)
        requires
            0 <= w < 0x400,
            0 <= seq < 0x1000,
    ;
    vstd::arithmetic::div_mod::lemma_fundamental_div_mod_converse(
        id,
        0x40_0000,
        a,
        w * 0x1000 + seq,
    );
}

/// Law: ids from one generator strictly increase. Whenever the pair
/// (timestamp, sequence) grows lexicographically — which `generate` ensures
/// for every pair of consecutive successful calls — the packed ids grow too,
/// as long as the timestamps lie inside the 41-bit range of the id layout.
pub proof fn lemma_ids_strictly_increase(worker: int, ts1: int, seq1: int, ts2: int, seq2: int)
    requires
        0 <= seq1 < 0x1000,
        0 <= seq2 < 0x1000,
        TWITTER_EPOCH <= ts1,
        ts2 <= TWITTER_EPOCH + MAX_TIMESTAMP_DELTA,
        ts1 < ts2 || (ts1 == ts2 && seq1 < seq2),
    ensures
        id_of(worker, ts1, seq1) < id_of(worker, ts2, seq2),
{
    let w = worker % 0x400;
    if ts1 < ts2 {
        assert(ts_field(ts2) - ts_field(ts1) >= 1);
        assert((ts_field(ts2) - ts_field(ts1)) * 0x40_0000 >= 0x40_0000) by (nonlinear_arith)
            requires
                ts_field(ts2) - ts_field(ts1) >= 1,
        ;
    }
}

} // verus!
