//! Epochs: discrete time slices counted since the Unix reference, each a
//! fixed number of seconds long.

use vstd::prelude::*;

use crate::EigenError;

verus! {

/// A discrete time unit: seconds since the Unix reference divided by a
/// fixed interval.
#[derive(Clone, Copy, Debug, PartialEq, Eq, Hash, Structural)]
pub struct Epoch(pub u64);

/// The byte of a 64-bit value at a given position of its big-endian
/// encoding.
pub open spec fn u64_be_byte(v: u64, i: int) -> u8 {
    ((v >> ((7 - i) * 8)) & 0xff) as u8
}

impl Epoch {
    /// The eight bytes of the epoch counter, most significant first.
    pub fn to_be_bytes(self) -> (r: [u8; 8])
        ensures
            forall|i: int| 0 <= i < 8 ==> r@[i] == u64_be_byte(self.0, i),
    {
        let v = self.0;
        let mut r = [0u8; 8];
        let mut i: usize = 0;
        while i < 8
            invariant
                i <= 8,
                forall|j: int| 0 <= j < i ==> r@[j] == u64_be_byte(v, j),
            decreases 8 - i,
        {
            let shift: u64 = (7 - (i as u64)) * 8;
            r[i] = #[verifier::truncate] (((v >> shift) & 0xff) as u8);
            i = i + 1;
        }
        r
    }

    /// The epoch that a given timestamp falls in.
    pub fn epoch_at(timestamp: u64, interval: u64) -> (r: Epoch)
        requires
            interval > 0,
        ensures
            r.0 == timestamp as int / interval as int,
    {
        Epoch(timestamp / interval)
    }

    /// The seconds from a given timestamp to the start of the next epoch.
    pub fn secs_until_next_epoch_at(timestamp: u64, interval: u64) -> (r: u64)
        requires
            interval > 0,
            timestamp + interval <= u64::MAX,
        ensures
            r == (timestamp as int / interval as int + 1) * interval - timestamp,
    {
        let current_epoch = timestamp / interval;
        proof {
            let t = timestamp as int;
            let iv = interval as int;
            assert((t / iv) * iv + t % iv == t && 0 <= t % iv < iv) by (nonlinear_arith)
                requires
                    iv > 0,
                    t >= 0,
            ;
            assert((t / iv + 1) * iv == (t / iv) * iv + iv) by (nonlinear_arith);
        }
        (current_epoch + 1) * interval - timestamp
    }

    /// The epoch the system clock is in now; an error when the clock reads
    /// a time before the Unix reference.
    pub fn current_epoch(interval: u64) -> (r: Result<Epoch, EigenError>)
        requires
            interval > 0,
        ensures
            r matches Err(e) ==> e is EpochError,
    {
        match unix_now_secs() {
            Ok(t) => Ok(Epoch::epoch_at(t, interval)),
            Err(e) => Err(e),
        }
    }

    /// The seconds remaining before the epoch counter increments; an error
    /// when the clock reads a time before the Unix reference, or so late
    /// that the end of the current epoch does not fit the counter.
    pub fn secs_until_next_epoch(interval: u64) -> (r: Result<u64, EigenError>)
        requires
            interval > 0,
        ensures
            r matches Err(e) ==> e is EpochError,
    {
        match unix_now_secs() {
            Ok(t) => {
                if t <= u64::MAX - interval {
                    Ok(Epoch::secs_until_next_epoch_at(t, interval))
                } else {
                    Err(EigenError::EpochError)
                }
            },
            Err(e) => Err(e),
        }
    }

    /// Seconds of the system clock since the Unix reference.
    pub fn current_timestamp() -> (r: Result<u64, EigenError>)
        ensures
            r matches Err(e) ==> e is EpochError,
    {
        unix_now_secs()
    }

    /// The epoch before this one.
    pub fn previous(&self) -> (r: Self)
        requires
            self.0 > 0,
        ensures
            r.0 == self.0 - 1,
    {
        Epoch(self.0 - 1)
    }

    /// The epoch after this one.
    pub fn next(&self) -> (r: Self)
        requires
            self.0 < u64::MAX,
        ensures
            r.0 == self.0 + 1,
    {
        Epoch(self.0 + 1)
    }
}

/// Relies on std::time::SystemTime: the system clock's seconds since the
/// Unix reference, or an error when the clock reads a time before it.
/// Nothing is assumed of the value: callers hold for every reading.
#[verifier::external_body]
fn unix_now_secs() -> (r: Result<u64, EigenError>)
    ensures
        r matches Err(e) ==> e is EpochError,
{
    match std::time::SystemTime::now().duration_since(std::time::UNIX_EPOCH) {
        Ok(d) => Ok(d.as_secs()),
        Err(_) => Err(EigenError::EpochError),
    }
}

} // verus!
