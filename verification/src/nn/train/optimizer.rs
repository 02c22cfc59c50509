//! What an optimizer does when.

use vstd::prelude::*;

verus! {

/// When an optimizer last reported its loss and last sent its parameters, in milliseconds, and how
/// many losses have been summed up since the last report.
#[derive(Copy, Clone, Debug, PartialEq, Eq, Structural)]
pub struct OptimizerClock {
    pub last_print: u64,
    pub last_upload: u64,
    pub upload_interval_secs: u64,
    pub loss_count: u64,
    pub total_iters: u64,
}

/// What is due after a step.
#[derive(Copy, Clone, Debug, PartialEq, Eq, Structural)]
pub struct Due {
    /// The mean over so many losses is to be reported.
    pub print: Option<u64>,
    /// The parameters are to be sent.
    pub upload: bool,
}

/// Whether at least so many seconds have passed.
pub open spec fn passed(since: u64, now: u64, secs: u64) -> bool {
    now >= since && now - since >= secs * 1000
}

/// Whether at least so many seconds have passed.
fn have_passed(since: u64, now: u64, secs: u64) -> (have: bool)
    ensures
        have == passed(since, now, secs),
{
    now >= since && (now - since) / 1000 >= secs
}

/// Whether there are enough positions for a step. If there are not, the optimizer waits for ten
/// seconds.
pub fn can_step(positions: usize, batch_size: usize) -> (can: bool)
    ensures
        can == (positions >= batch_size),
{
    !(positions < batch_size)
}

impl OptimizerClock {
    /// An optimizer that starts now.
    pub fn new(now: u64, upload_interval_secs: u64) -> (clock: OptimizerClock)
        ensures
            clock == (OptimizerClock {
                last_print: now,
                last_upload: now,
                upload_interval_secs,
                loss_count: 0,
                total_iters: 0,
            }),
    {
        OptimizerClock {
            last_print: now,
            last_upload: now,
            upload_interval_secs,
            loss_count: 0,
            total_iters: 0,
        }
    }

    /// A step has been made. The loss is reported once a second has passed since it was reported
    /// last, and the parameters are sent once the interval has.
    pub fn stepped(&mut self, now: u64) -> (due: Due)
        requires
            old(self).total_iters < u64::MAX,
            old(self).loss_count <= old(self).total_iters,
        ensures
            ({
                let print = passed(old(self).last_print, now, 1);
                let upload = passed(old(self).last_upload, now, old(self).upload_interval_secs);
                &&& due.print == (if print {
                    Some((old(self).loss_count + 1) as u64)
                } else {
                    None
                })
                &&& due.upload == upload
                &&& final(self).last_print == if print {
                    now
                } else {
                    old(self).last_print
                }
                &&& final(self).loss_count == if print {
                    0
                } else {
                    old(self).loss_count + 1
                }
                &&& final(self).last_upload == if upload {
                    now
                } else {
                    old(self).last_upload
                }
                &&& final(self).upload_interval_secs == old(self).upload_interval_secs
                &&& final(self).total_iters == old(self).total_iters + 1
                &&& final(self).loss_count <= final(self).total_iters
            }),
    {
        self.total_iters = self.total_iters + 1;
        self.loss_count = self.loss_count + 1;
        let mut print: Option<u64> = None;
        if have_passed(self.last_print, now, 1) {
            print = Some(self.loss_count);
            self.last_print = now;
            self.loss_count = 0;
        }
        let upload = have_passed(self.last_upload, now, self.upload_interval_secs);
        if upload {
            self.last_upload = now;
        }
        Due { print, upload }
    }
}

} // verus!
