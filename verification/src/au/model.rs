//! The data that twins keep and exchange.
//!
//! The main data structure is the `AuMsg`, an envelope for commands and queries.
//! Telemetry is always a record with a name, a datetime and a numerical value.

use vstd::prelude::*;

use crate::au::twins::{lists_state, Envelope, State, Telemetry};

verus! {

/// What an envelope asks of the twin it is addressed to.
#[derive(Clone, Copy, Debug, PartialEq, Eq, Structural)]
pub enum AuCmd {
    /// Ask for the twin's current state.
    Get,
    /// Tell the twin new telemetry.
    Tell,
    /// Ask for the names of the twin's children.
    Ls,
}

impl AuCmd {
    /// The word that the command goes by.
    pub open spec fn spec_name(&self) -> Seq<char> {
        match self {
            AuCmd::Get => "Get"@,
            AuCmd::Tell => "Tell"@,
            AuCmd::Ls => "Ls"@,
        }
    }

    /// The word that the command goes by, for those who read along.
    pub fn name(&self) -> (word: &'static str)
        ensures
            word@ == self.spec_name(),
    {
        match self {
            AuCmd::Get => "Get",
            AuCmd::Tell => "Tell",
            AuCmd::Ls => "Ls",
        }
    }
}

/// An instant on the UTC time line: whole seconds since 1970-01-01T00:00:00Z
/// and the nanoseconds since the last second boundary.
#[derive(Clone, Copy, Debug, PartialEq, Eq, Structural)]
pub struct UtcInstant {
    pub secs: i64,
    pub nanos: u32,
}

/// The first second that a calendar date-time can hold: the first of the
/// year -262143.
pub const FIRST_SECOND: i64 = -8_334_601_228_800;

/// The last second that a calendar date-time can hold: the last of the
/// year 262142.
pub const LAST_SECOND: i64 = 8_210_266_876_799;

/// The nanoseconds that make a second.
pub const NANOS_PER_SECOND: u32 = 1_000_000_000;

impl UtcInstant {
    /// The instant is one that a calendar date-time of `chrono` stands for:
    /// its second lies within the calendar, and its nanoseconds stay below
    /// a second, or below two within a leap second, which is counted on
    /// top of the last second of a minute.
    pub open spec fn valid(&self) -> bool {
        &&& FIRST_SECOND <= self.secs <= LAST_SECOND
        &&& (self.nanos < NANOS_PER_SECOND || (self.nanos < 2 * NANOS_PER_SECOND && self.secs % 60
            == 59))
    }

    /// Whether the instant is one that a calendar date-time stands for.
    pub fn is_valid(&self) -> (yes: bool)
        ensures
            yes == self.valid(),
    {
        if self.secs < FIRST_SECOND || self.secs > LAST_SECOND {
            return false;
        }
        if self.nanos < NANOS_PER_SECOND {
            return true;
        }
        if self.nanos >= 2 * NANOS_PER_SECOND {
            return false;
        }
        match self.secs.checked_rem_euclid(60) {
            Some(second) => second == 59,
            None => false,
        }
    }
}

/// Reads the system clock with `chrono::Utc::now` and hands back its
/// `timestamp` and `timestamp_subsec_nanos`. Which instant comes back is
/// whatever the clock of the machine says. What is claimed of it holds of
/// every reading: `now` counts the time since 1970 in whole seconds and in
/// nanoseconds below a second, and makes a date-time of them by
/// `DateTime::from_timestamp`, which succeeds on valid instants only; the
/// two methods give these two numbers back. On a machine whose clock
/// stands before 1970, or past the end of the calendar, the call does not
/// come back.
#[verifier::external_body]
fn utc_now() -> (now: UtcInstant)
    ensures
        now.valid(),
        now.secs >= 0,
        now.nanos < NANOS_PER_SECOND,
{
    let now = chrono::Utc::now();
    UtcInstant { secs: now.timestamp(), nanos: now.timestamp_subsec_nanos() }
}

/// The single data structure representing the source of all twin state.
#[derive(Debug, PartialEq, Eq)]
pub struct AuTelemetry {
    /// Ideally the instant at which the observation was made in the real world.
    pub datetime: UtcInstant,
    /// Space scoped name of the measurement's type (not instance), ie:
    /// `refrigerator.temp.celsius`.
    pub name: String,
    /// The bits of the observed double precision number, ie: those of `22.9`.
    pub value: u64,
}

impl View for AuTelemetry {
    type V = Telemetry;

    open spec fn view(&self) -> Telemetry {
        Telemetry { datetime: self.datetime, name: self.name@, value: self.value }
    }
}

impl DeepView for AuTelemetry {
    type V = Telemetry;

    open spec fn deep_view(&self) -> Telemetry {
        self@
    }
}

impl Clone for AuTelemetry {
    fn clone(&self) -> (copy: Self)
        ensures
            copy == *self,
    {
        AuTelemetry { datetime: self.datetime, name: self.name.clone(), value: self.value }
    }
}

impl AuTelemetry {
    /// A record named `measurement` of the value zero, taken at `now`.
    pub fn at(now: UtcInstant) -> (record: Self)
        ensures
            record@ == (Telemetry { datetime: now, name: "measurement"@, value: 0 }),
    {
        AuTelemetry { datetime: now, name: "measurement".to_owned(), value: 0 }
    }
}

impl Default for AuTelemetry {
    /// A record named `measurement` of the value zero, taken now: at the
    /// instant that the clock shows, which is a valid one and not before
    /// 1970.
    fn default() -> (record: Self)
        ensures
            record.name@ == "measurement"@,
            record.value == 0,
            record.datetime.valid(),
            record.datetime.secs >= 0,
            record.datetime.nanos < NANOS_PER_SECOND,
    {
        AuTelemetry::at(utc_now())
    }
}

/// Why a request was not served.
#[derive(Clone, Copy, Debug, PartialEq, Eq, Structural)]
pub enum AuError {
    /// A path holds a segment that names no twin.
    PathError,
    /// The command is not one that the request can carry out.
    UnknownOperation,
    /// No answer came within the time the caller was ready to wait.
    Timeout,
    /// A message could not be handed to the one it was meant for.
    DispatchFailure,
}

/// Twins keep their state in collections of telemetry records: for each
/// measurement name the record that was told last.
#[derive(Debug)]
pub struct AuState {
    state: Vec<AuTelemetry>,
}

/// Whether one of `records` goes by `name`.
spec fn names_one(records: Seq<AuTelemetry>, name: Seq<char>) -> bool {
    exists|i: int| 0 <= i < records.len() && #[trigger] records[i].name@ == name
}

/// The place in `records` of a record that goes by `name`.
spec fn place_of(records: Seq<AuTelemetry>, name: Seq<char>) -> int {
    choose|i: int| 0 <= i < records.len() && #[trigger] records[i].name@ == name
}

/// No two of `records` go by the same name.
spec fn one_per_name(records: Seq<AuTelemetry>) -> bool {
    forall|i: int, j: int| 0 <= i < j < records.len() ==> records[i].name@ != records[j].name@
}

/// The state that `records` stand for: each record under its name.
spec fn kept(records: Seq<AuTelemetry>) -> State {
    Map::new(
        |name: Seq<char>| names_one(records, name),
        |name: Seq<char>| records[place_of(records, name)]@,
    )
}

/// Putting `record` at the place `i` of `before`, in the place of the
/// record of its name or behind the last where no record has its name,
/// keeps it as the record of its name and leaves every other name alone.
proof fn lemma_kept_with(before: Seq<AuTelemetry>, after: Seq<AuTelemetry>, i: int, record: AuTelemetry)
    requires
        one_per_name(before),
        0 <= i <= before.len(),
        after == if i < before.len() {
            before.update(i, record)
        } else {
            before.push(record)
        },
        forall|k: int| 0 <= k < before.len() && k != i ==> before[k].name@ != record.name@,
        i < before.len() ==> before[i].name@ == record.name@,
    ensures
        one_per_name(after),
        kept(after) == kept(before).insert(record.name@, record@),
{
    assert forall|name: Seq<char>| names_one(after, name) <==> (names_one(before, name) || name
        == record.name@) by {
        if names_one(before, name) {
            let k = place_of(before, name);
            assert(after[k].name@ == name);
        }
        if name == record.name@ {
            assert(after[i].name@ == name);
        }
        if names_one(after, name) && name != record.name@ {
            let k = place_of(after, name);
            assert(before[k].name@ == name);
        }
    }
    assert forall|name: Seq<char>| names_one(after, name) implies after[place_of(after, name)]@
        == kept(before).insert(record.name@, record@)[name] by {
        let k = place_of(after, name);
        if name != record.name@ {
            let k0 = place_of(before, name);
            assert(before[k].name@ == name);
            assert(before[k0].name@ == name);
            assert(k0 == k);
        } else {
            assert(k == i);
        }
    }
    assert(kept(after) =~= kept(before).insert(record.name@, record@));
}

impl View for AuState {
    type V = State;

    closed spec fn view(&self) -> State {
        kept(self.state@)
    }
}

impl Clone for AuState {
    /// A store of its own that keeps the same records.
    fn clone(&self) -> (copy: Self)
        ensures
            copy@ == self@,
            copy.wf() == self.wf(),
    {
        let mut state: Vec<AuTelemetry> = Vec::new();
        let mut i: usize = 0;
        while i < self.state.len()
            invariant
                i <= self.state@.len(),
                state@ == self.state@.take(i as int),
            decreases self.state@.len() - i,
        {
            state.push(self.state[i].clone());
            proof {
                assert(state@ =~= self.state@.take(i + 1));
            }
            i += 1;
        }
        proof {
            assert(state@ =~= self.state@);
        }
        AuState { state }
    }
}

impl AuState {
    /// No two records that the store keeps go by the same name.
    pub closed spec fn wf(&self) -> bool {
        one_per_name(self.state@)
    }

    /// A store that keeps nothing.
    pub fn new() -> (store: Self)
        ensures
            store.wf(),
            store@ == Map::<Seq<char>, Telemetry>::empty(),
    {
        let store = AuState { state: Vec::new() };
        assert(store@ =~= Map::<Seq<char>, Telemetry>::empty());
        store
    }

    /// Keeps `record` as the latest of its name.
    pub fn insert(&mut self, record: AuTelemetry)
        requires
            old(self).wf(),
        ensures
            final(self).wf(),
            final(self)@ == old(self)@.insert(record.name@, record@),
    {
        let mut i: usize = 0;
        while i < self.state.len()
            invariant
                i <= self.state@.len(),
                old(self).wf(),
                self.state@ == old(self).state@,
                forall|k: int| 0 <= k < i ==> self.state@[k].name@ != record.name@,
            decreases self.state@.len() - i,
        {
            if self.state[i].name == record.name {
                self.state[i] = record;
                proof {
                    lemma_kept_with(old(self).state@, self.state@, i as int, record);
                }
                return ;
            }
            i += 1;
        }
        self.state.push(record);
        proof {
            lemma_kept_with(old(self).state@, self.state@, i as int, record);
        }
    }

    /// A copy of every record that the store keeps.
    pub fn values(&self) -> (records: Vec<AuTelemetry>)
        requires
            self.wf(),
        ensures
            lists_state(records.deep_view(), self@),
    {
        let mut records: Vec<AuTelemetry> = Vec::new();
        let mut i: usize = 0;
        while i < self.state.len()
            invariant
                i <= self.state@.len(),
                records@.len() == i,
                forall|k: int| 0 <= k < i ==> records@[k] == self.state@[k],
            decreases self.state@.len() - i,
        {
            records.push(self.state[i].clone());
            i += 1;
        }
        proof {
            let listed = records.deep_view();
            assert forall|k: int| 0 <= k < listed.len() implies self@.contains_key(
                #[trigger] listed[k].name,
            ) && self@[listed[k].name] == listed[k] by {
                assert(self.state@[k].name@ == listed[k].name);
                assert(place_of(self.state@, listed[k].name) == k);
            }
            assert forall|name: Seq<char>| #[trigger] self@.contains_key(name) implies exists|
                k: int,
            |
                0 <= k < listed.len() && listed[k].name == name by {
                let k = place_of(self.state@, name);
                assert(listed[k].name == name);
            }
        }
        records
    }
}

/// The envelope for commands and queries: what is asked, the telemetry that
/// comes with it, and the names of the twins it has still to pass, the
/// nearest first. An envelope with an empty path has arrived.
#[derive(Clone, Debug)]
pub struct AuMsg<T> {
    pub cmd: AuCmd,
    pub msg: Option<T>,
    pub path: Vec<String>,
}

impl View for AuMsg<Vec<AuTelemetry>> {
    type V = Envelope;

    open spec fn view(&self) -> Envelope {
        Envelope {
            cmd: self.cmd,
            records: match self.msg {
                Some(records) => Some(records.deep_view()),
                None => None,
            },
            path: self.path.deep_view(),
        }
    }
}

} // verus!
