//! Choice of the listening port.
//!
//! The listener binds to the loopback address on the first free port of a
//! fixed candidate range: the base port, then each successive port up to the
//! largest one. `PortSearch` hands out the candidates in that order; the
//! caller tries to bind each and stops at the first success. Startup fails
//! only when every candidate has been refused.

use vstd::prelude::*;

verus! {

/// First port that is tried.
pub const BASE_PORT: u16 = 7400;

/// Enumerates the candidate ports `BASE_PORT, BASE_PORT + 1, ..., u16::MAX`
/// in order, once each.
pub struct PortSearch {
    next: u16,
    exhausted: bool,
}

impl PortSearch {
    /// The candidate the next call of `next_port` returns, or `None` when
    /// the range has run out.
    pub closed spec fn upcoming(self) -> Option<u16> {
        if self.exhausted {
            None
        } else {
            Some(self.next)
        }
    }

    pub closed spec fn wf(self) -> bool {
        !self.exhausted ==> self.next >= BASE_PORT
    }

    pub fn new() -> (s: PortSearch)
        ensures
            s.wf(),
            s.upcoming() == Some(BASE_PORT),
    {
        PortSearch { next: BASE_PORT, exhausted: false }
    }

    /// The next candidate port, one higher than the last, `None` once the
    /// range is exhausted.
    pub fn next_port(&mut self) -> (r: Option<u16>)
        requires
            old(self).wf(),
        ensures
            final(self).wf(),
            r == old(self).upcoming(),
            (match old(self).upcoming() {
                Some(p) => final(self).upcoming() == if p < u16::MAX {
                    Some((p + 1) as u16)
                } else {
                    None::<u16>
                },
                None => final(self).upcoming() == None::<u16>,
            }),
    {
        if self.exhausted {
            return None;
        }
        let p = self.next;
        if p == u16::MAX {
            self.exhausted = true;
        } else {
            self.next = p + 1;
        }
        Some(p)
    }
}

} // verus!
