//! The names that a message has still to be forwarded through.

use std::collections::VecDeque;
use vstd::prelude::*;

pub use crate::au::model::{AuCmd, AuMsg, AuTelemetry};
use crate::au::twins::Path;

verus! {

/// The names of the twins that a message is to be forwarded through, in
/// the order in which it reaches them.
#[derive(Clone, Debug)]
pub struct AuForwards(VecDeque<String>);

impl View for AuForwards {
    type V = Path;

    closed spec fn view(&self) -> Path {
        self.0.deep_view()
    }
}

impl AuForwards {
    /// Forwards through the one twin called `name`.
    pub fn new_one(name: String) -> (forwards: AuForwards)
        ensures
            forwards@ == Path::empty().push(name@),
    {
        let mut ll: VecDeque<String> = VecDeque::new();
        ll.push_back(name);
        let forwards = AuForwards(ll);
        assert(forwards@ =~= Path::empty().push(name@));
        forwards
    }

    /// Forwards through nobody.
    pub fn new() -> (forwards: AuForwards)
        ensures
            forwards@ == Path::empty(),
    {
        let forwards = AuForwards(VecDeque::new());
        assert(forwards@ =~= Path::empty());
        forwards
    }
}

impl Default for AuForwards {
    /// Forwards through nobody.
    fn default() -> (forwards: Self)
        ensures
            forwards@ == Path::empty(),
    {
        AuForwards::new()
    }
}

} // verus!
