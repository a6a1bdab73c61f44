//! The place where the one who asked a twin awaits the answer.

use vstd::prelude::*;

use crate::au::model::{AuError, AuMsg, AuTelemetry};
use crate::au::twins::{awaits, posted, Rendezvous};

verus! {

/// Holds the one answer to one question. The one who asks says how long it
/// is ready to wait; time passes as it is told to; the twin that answers
/// hands its envelope over; and an answer that comes too late is dropped.
#[derive(Debug)]
pub struct ReplySlot {
    deadline: u64,
    waited: u64,
    response: Option<AuMsg<Vec<AuTelemetry>>>,
}

impl View for ReplySlot {
    type V = Rendezvous;

    closed spec fn view(&self) -> Rendezvous {
        Rendezvous {
            deadline: self.deadline,
            waited: self.waited,
            response: match self.response {
                Some(envelope) => Some(envelope@),
                None => None,
            },
        }
    }
}

impl ReplySlot {
    /// An empty slot for one who waits no longer than `deadline`.
    pub fn new(deadline: u64) -> (slot: Self)
        ensures
            slot@ == (Rendezvous { deadline, waited: 0, response: None }),
    {
        ReplySlot { deadline, waited: 0, response: None }
    }

    /// Lets `time` pass for the one who waits.
    pub fn advance(&mut self, time: u64)
        ensures
            final(self)@.deadline == old(self)@.deadline,
            final(self)@.response == old(self)@.response,
            final(self)@.waited == if old(self)@.waited + time <= u64::MAX {
                (old(self)@.waited + time) as u64
            } else {
                u64::MAX
            },
    {
        self.waited = self.waited.saturating_add(time);
    }

    /// Hands `response` over. It is kept where an answer is still awaited,
    /// dropped where it comes too late, and refused where an answer is
    /// there already.
    pub fn fulfil(&mut self, response: AuMsg<Vec<AuTelemetry>>) -> (sent: Result<(), AuError>)
        ensures
            posted(old(self)@, final(self)@, sent),
            awaits(old(self)@) ==> final(self)@.response == Some(response@),
    {
        if self.response.is_some() {
            Err(AuError::DispatchFailure)
        } else {
            if self.waited <= self.deadline {
                self.response = Some(response);
            }
            Ok(())
        }
    }

    /// Ends the wait: the answer that came in, or `Timeout` where none did
    /// in time.
    pub fn take(self) -> (answer: Result<AuMsg<Vec<AuTelemetry>>, AuError>)
        ensures
            match self@.response {
                Some(response) => answer matches Ok(envelope) && envelope@ == response,
                None => answer == Err::<AuMsg<Vec<AuTelemetry>>, AuError>(AuError::Timeout),
            },
    {
        match self.response {
            Some(envelope) => Ok(envelope),
            None => Err(AuError::Timeout),
        }
    }
}

} // verus!
