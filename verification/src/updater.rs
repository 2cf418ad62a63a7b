//! Control state of the refresh scheduler: whether a background
//! refresh task is running, and the checks around starting and
//! stopping one. The timer loop itself runs outside the library.

use vstd::prelude::*;

verus! {

/// Why a scheduler control call was refused.
#[derive(Debug, Clone, Copy, PartialEq, Eq, Structural)]
pub enum UpdaterError {
    /// `start` while a refresh task is already running.
    AlreadyRunning,
    /// `stop` while no refresh task is running.
    NotRunning,
    /// A refresh interval that is not strictly positive, or whose
    /// second count does not fit in 64 bits.
    InvalidInterval,
}

/// The scheduler's state machine: idle or running.
#[derive(Debug)]
pub struct UpdaterControl {
    pub running: bool,
}

impl UpdaterControl {
    /// A scheduler starts idle.
    pub fn new() -> (c: UpdaterControl)
        ensures
            !c.running,
    {
        UpdaterControl { running: false }
    }

    /// Move to running. Refused when already running or when the
    /// interval is not strictly positive; on success the result is the
    /// interval in seconds.
    pub fn start(&mut self, interval_minutes: i64) -> (r: Result<u64, UpdaterError>)
        ensures
            old(self).running ==> r == Err::<u64, UpdaterError>(UpdaterError::AlreadyRunning)
                && *final(self) == *old(self),
            !old(self).running && interval_minutes <= 0 ==> r == Err::<u64, UpdaterError>(
                UpdaterError::InvalidInterval,
            ) && *final(self) == *old(self),
            !old(self).running && 0 < interval_minutes && interval_minutes as int * 60
                <= u64::MAX ==> r == Ok::<u64, UpdaterError>((interval_minutes * 60) as u64)
                && final(self).running,
            !old(self).running && 0 < interval_minutes && interval_minutes as int * 60
                > u64::MAX ==> r == Err::<u64, UpdaterError>(UpdaterError::InvalidInterval)
                && *final(self) == *old(self),
    {
        if self.running {
            return Err(UpdaterError::AlreadyRunning);
        }
        if interval_minutes <= 0 {
            return Err(UpdaterError::InvalidInterval);
        }
        let minutes = interval_minutes as u64;
        if minutes > u64::MAX / 60 {
            return Err(UpdaterError::InvalidInterval);
        }
        self.running = true;
        Ok(minutes * 60)
    }

    /// Move to idle. Refused when nothing is running.
    pub fn stop(&mut self) -> (r: Result<(), UpdaterError>)
        ensures
            old(self).running ==> r == Ok::<(), UpdaterError>(()) && !final(self).running,
            !old(self).running ==> r == Err::<(), UpdaterError>(UpdaterError::NotRunning)
                && *final(self) == *old(self),
    {
        if self.running {
            self.running = false;
            Ok(())
        } else {
            Err(UpdaterError::NotRunning)
        }
    }
}

} // verus!
