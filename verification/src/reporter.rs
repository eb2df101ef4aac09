use vstd::prelude::*;

verus! {

/// An error surfaced by the log-reading machinery.
#[derive(Debug)]
pub enum Error {
    /// The log contained bytes that could not be decoded.
    Corruption(String),
}

/// Receives corruption reports while a write-ahead log is scanned.
pub trait Reporter {
    /// `bytes` is the approximate number of bytes dropped because of the
    /// corruption; `reason` describes it.
    fn corruption(&mut self, bytes: u64, reason: &str);
}

/// A `Reporter` that remembers whether any corruption was reported, and the
/// reason of the most recent report.
pub struct LogReporter {
    /// True while no corruption has been reported.
    pub ok: bool,
    /// The reason given with the most recent report; empty before any report.
    pub reason: String,
}

impl LogReporter {
    /// A fresh reporter: no corruption seen yet.
    pub fn new() -> (r: LogReporter)
        ensures
            r.ok,
            r.reason@ == Seq::<char>::empty(),
    {
        proof {
            reveal_strlit("");
        }
        LogReporter { ok: true, reason: "".to_owned() }
    }

    /// `Ok(())` while nothing was reported; otherwise the recorded reason,
    /// wrapped as a corruption error.
    pub fn result(&self) -> (r: Result<(), Error>)
        ensures
            self.ok ==> r matches Ok(()),
            !self.ok ==> (r matches Err(Error::Corruption(s)) && s@ == self.reason@),
    {
        if self.ok {
            Ok(())
        } else {
            Err(Error::Corruption(self.reason.clone()))
        }
    }

    /// Records one corruption report, overwriting any earlier reason.
    pub fn record_corruption(&mut self, reason: &str)
        ensures
            !final(self).ok,
            final(self).reason@ == reason@,
    {
        self.ok = false;
        self.reason = reason.to_owned();
    }
}

impl Reporter for LogReporter {
    fn corruption(&mut self, _bytes: u64, reason: &str) {
        self.record_corruption(reason);
    }
}

} // verus!
