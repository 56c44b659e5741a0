//! Host control: a handle the walk polls at container and record boundaries.

use vstd::prelude::*;

use crate::error::{at, Error, ErrorKind};

verus! {

/// A host's handle on a running request. The host flips `stop`, reports its
/// memory use, and advances the clock; the walk only reads.
pub struct Control {
    /// Non-zero once the host cancels the request.
    pub stop: core::sync::atomic::AtomicU8,
    /// Physical memory the host accounts to the request.
    pub used: core::sync::atomic::AtomicU64,
    /// The host's clock.
    pub clock: core::sync::atomic::AtomicU64,
    /// Memory the request may use.
    pub ceiling: u64,
    /// Clock reading the request may not pass.
    pub deadline: Option<u64>,
}

/// What one poll decides: a cancel first, then the deadline, then the ceiling.
pub open spec fn verdict(stop: u8, now: u64, used: u64, ceiling: u64, deadline: Option<u64>, offset: int) -> Option<Error> {
    if stop != 0 {
        Some(at(ErrorKind::Cancelled, offset))
    } else if deadline is Some && now >= deadline->0 {
        Some(at(ErrorKind::DeadlineExceeded, offset))
    } else if used >= ceiling {
        Some(at(ErrorKind::MemoryExceeded, offset))
    } else {
        None
    }
}

/// Whether a refusal is a stop that a poll of a control can decide at one of the offsets up
/// to `n`.
pub open spec fn is_stop_of(control: Control, error: Error, n: int) -> bool {
    exists|stop: u8, now: u64, used: u64, offset: int|
        0 <= offset <= n && #[trigger] verdict(stop, now, used, control.ceiling, control.deadline, offset) == Some(error)
}

/// Whether a poll of a control can decide a refusal at one of the offsets up to `n`.
pub(crate) fn can_stop_with(control: &Control, error: Error, n: usize) -> (r: bool)
    ensures
        r == is_stop_of(*control, error, n as int),
{
    if error.offset as usize > n {
        return false;
    }
    let stops: bool = match error.kind {
        ErrorKind::Cancelled => true,
        ErrorKind::DeadlineExceeded => control.deadline.is_some(),
        ErrorKind::MemoryExceeded => match control.deadline {
            Some(limit) => limit > 0,
            None => true,
        },
        _ => false,
    };
    proof {
        let offset = error.offset as int;
        if stops {
            if error.kind == ErrorKind::Cancelled {
                assert(verdict(1, 0, 0, control.ceiling, control.deadline, offset) == Some(error));
            } else if error.kind == ErrorKind::DeadlineExceeded {
                assert(verdict(0, u64::MAX, 0, control.ceiling, control.deadline, offset) == Some(error));
            } else {
                assert(verdict(0, 0, u64::MAX, control.ceiling, control.deadline, offset) == Some(error));
            }
        }
    }
    stops
}

/// Decide one poll from what it read.
pub fn decide(stop: u8, now: u64, used: u64, ceiling: u64, deadline: Option<u64>, offset: usize) -> (r: Result<(), Error>)
    ensures
        match verdict(stop, now, used, ceiling, deadline, offset as int) {
            Some(error) => r == Err::<(), Error>(error),
            None => r is Ok,
        },
{
    if stop != 0 {
        return Err(Error::new(ErrorKind::Cancelled, offset));
    }
    if let Some(limit) = deadline {
        if now >= limit {
            return Err(Error::new(ErrorKind::DeadlineExceeded, offset));
        }
    }
    if used >= ceiling {
        return Err(Error::new(ErrorKind::MemoryExceeded, offset));
    }
    Ok(())
}

/// Poll a host control at `offset`. Whatever the host did, a refusal is a stop
/// at `offset` that the handle's own limits allow: one with a deadline only
/// when the handle has one, and none for memory under an unreachable ceiling
/// unless all of it is used.
pub fn check_control(control: &Control, offset: usize) -> (r: Result<(), Error>)
    ensures
        r matches Err(error) ==> exists|stop: u8, now: u64, used: u64|
            #[trigger] verdict(stop, now, used, control.ceiling, control.deadline, offset as int) == Some(error),
{
    let (stop, now, used) = read_control(control);
    decide(stop, now, used, control.ceiling, control.deadline, offset)
}

/// What the host has set: the stop flag, the clock and the memory in use. A
/// concurrent host may have set anything.
fn read_control(control: &Control) -> (r: (u8, u64, u64)) {
    let stop: u8 = control.stop.load(core::sync::atomic::Ordering::Acquire);
    let now: u64 = control.clock.load(core::sync::atomic::Ordering::Acquire);
    let used: u64 = control.used.load(core::sync::atomic::Ordering::Relaxed);
    (stop, now, used)
}

} // verus!
