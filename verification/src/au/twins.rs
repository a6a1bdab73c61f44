//! The mathematical picture of a twin space that the contracts speak of.
//!
//! A space is a map from the path of each twin that exists to that twin's
//! state, and a state is a map from the name of each measurement to the
//! latest record of that name.

use vstd::prelude::*;

use crate::au::model::{AuCmd, AuError, UtcInstant};

verus! {

/// A telemetry record as contracts speak of it.
pub struct Telemetry {
    pub datetime: UtcInstant,
    pub name: Seq<char>,
    pub value: u64,
}

/// The state of one twin: the latest record under each measurement name.
pub type State = Map<Seq<char>, Telemetry>;

/// The route to a twin, outermost name first.
pub type Path = Seq<Seq<char>>;

/// A twin space: the state of every twin that exists, by its path.
pub type Twins = Map<Path, State>;

/// An envelope as contracts speak of it: what is asked, the records it
/// carries if it carries any, and the route it has still to travel.
pub struct Envelope {
    pub cmd: AuCmd,
    pub records: Option<Seq<Telemetry>>,
    pub path: Path,
}

/// A place where one answer is awaited: how long the one who waits is ready
/// to wait, how long it has waited, and the answer if one has come in.
pub struct Rendezvous {
    pub deadline: u64,
    pub waited: u64,
    pub response: Option<Envelope>,
}

/// An answer that comes in now is kept: none has come in before, and the
/// one who waits has not waited longer than it is ready to.
pub open spec fn awaits(slot: Rendezvous) -> bool {
    slot.response is None && slot.waited <= slot.deadline
}

/// What sending an answer does to the place where it is awaited. A second
/// answer cannot be handed over; a late one is dropped; one that is awaited
/// is kept.
pub open spec fn posted(before: Rendezvous, after: Rendezvous, sent: Result<(), AuError>) -> bool {
    &&& after.deadline == before.deadline
    &&& after.waited == before.waited
    &&& if before.response is Some {
        sent == Err::<(), AuError>(AuError::DispatchFailure) && after.response == before.response
    } else if before.waited > before.deadline {
        sent is Ok && after.response is None
    } else {
        sent is Ok && after.response is Some
    }
}

/// The state after `records` were written into `state` one after the other:
/// each record replaces whatever was kept under its name.
pub open spec fn written(state: State, records: Seq<Telemetry>) -> State
    decreases records.len(),
{
    if records.len() == 0 {
        state
    } else {
        written(state, records.drop_last()).insert(records.last().name, records.last())
    }
}

/// `records` lists `state`: each record of the state once, in any order.
pub open spec fn lists_state(records: Seq<Telemetry>, state: State) -> bool {
    &&& forall|i: int, j: int|
        0 <= i < j < records.len() ==> records[i].name != records[j].name
    &&& forall|i: int|
        0 <= i < records.len() ==> state.contains_key(#[trigger] records[i].name)
            && state[records[i].name] == records[i]
    &&& forall|name: Seq<char>| #[trigger]
        state.contains_key(name) ==> exists|i: int|
            0 <= i < records.len() && records[i].name == name
}

/// `list` lists `names`: each name of the set once, in any order.
pub open spec fn lists_names(list: Seq<Seq<char>>, names: Set<Seq<char>>) -> bool {
    &&& forall|i: int, j: int| 0 <= i < j < list.len() ==> list[i] != list[j]
    &&& forall|i: int| 0 <= i < list.len() ==> names.contains(#[trigger] list[i])
    &&& forall|name: Seq<char>| #[trigger]
        names.contains(name) ==> exists|i: int| 0 <= i < list.len() && list[i] == name
}

/// `path` leads through `stop`: `stop` is a beginning of `path` that names at
/// least one twin.
pub open spec fn on_the_way(stop: Path, path: Path) -> bool {
    0 < stop.len() <= path.len() && path.subrange(0, stop.len() as int) == stop
}

/// How being on the way to a path shows one step further down: two paths
/// that begin with the same name compare as what follows that name does.
pub proof fn lemma_on_the_way_step(stop: Path, path: Path)
    requires
        stop.len() > 0,
        path.len() > 0,
    ensures
        stop[0] != path[0] ==> !on_the_way(stop, path) && stop != path,
        stop[0] == path[0] ==> (on_the_way(stop, path) <==> stop.len() == 1 || on_the_way(
            stop.drop_first(),
            path.drop_first(),
        )),
        stop[0] == path[0] ==> (stop == path <==> stop.drop_first() == path.drop_first()),
{
    let s = stop.drop_first();
    let p = path.drop_first();
    if stop[0] != path[0] {
        if on_the_way(stop, path) {
            assert(path.subrange(0, stop.len() as int)[0] == stop[0]);
        }
    } else {
        if on_the_way(stop, path) && stop.len() > 1 {
            assert forall|k: int| 0 <= k < s.len() implies p.subrange(0, s.len() as int)[k]
                == s[k] by {
                assert(path.subrange(0, stop.len() as int)[k + 1] == stop[k + 1]);
            }
            assert(p.subrange(0, s.len() as int) =~= s);
        }
        if stop.len() == 1 {
            assert(path.subrange(0, 1) =~= stop);
        }
        if on_the_way(s, p) {
            assert forall|k: int| 0 <= k < stop.len() implies path.subrange(
                0,
                stop.len() as int,
            )[k] == stop[k] by {
                if k > 0 {
                    assert(p.subrange(0, s.len() as int)[k - 1] == s[k - 1]);
                }
            }
            assert(path.subrange(0, stop.len() as int) =~= stop);
        }
        if s == p {
            assert forall|k: int| 0 <= k < stop.len() implies stop[k] == path[k] by {
                if k > 0 {
                    assert(s[k - 1] == p[k - 1]);
                }
            }
            assert(stop =~= path);
        }
    }
}

/// The space after a message has travelled along `path`: every twin on the
/// way that did not exist has come into being with an empty state, and
/// nothing else has changed.
pub open spec fn touched(twins: Twins, path: Path) -> Twins {
    Map::new(
        |q: Path| twins.contains_key(q) || on_the_way(q, path),
        |q: Path|
            if twins.contains_key(q) {
                twins[q]
            } else {
                Map::empty()
            },
    )
}

/// A message brings the twin into being that it is addressed to.
pub proof fn lemma_touched_arrives(twins: Twins, path: Path)
    requires
        path.len() > 0 || twins.contains_key(path),
    ensures
        touched(twins, path).contains_key(path),
        touched(twins, path)[path] == if twins.contains_key(path) {
            twins[path]
        } else {
            Map::empty()
        },
{
    assert(path.subrange(0, path.len() as int) =~= path);
}

/// What lies on the way to a stop on the way lies on the way.
pub proof fn lemma_on_the_way_chain(first: Path, stop: Path, path: Path)
    requires
        on_the_way(first, stop),
        on_the_way(stop, path),
    ensures
        on_the_way(first, path),
{
    assert forall|k: int| 0 <= k < first.len() implies path.subrange(0, first.len() as int)[k]
        == first[k] by {
        assert(stop.subrange(0, first.len() as int)[k] == first[k]);
        assert(path.subrange(0, stop.len() as int)[k] == stop[k]);
    }
    assert(path.subrange(0, first.len() as int) =~= first);
}

/// A message to a stop on the way of another leaves nothing behind that the
/// other would not leave behind itself.
pub proof fn lemma_touched_absorbs(twins: Twins, stop: Path, path: Path)
    requires
        on_the_way(stop, path),
    ensures
        touched(touched(twins, stop), path) == touched(twins, path),
{
    assert forall|q: Path| on_the_way(q, stop) implies on_the_way(q, path) by {
        lemma_on_the_way_chain(q, stop, path);
    }
    assert(touched(touched(twins, stop), path) =~= touched(twins, path));
}

/// The space after the twin at `path` was told `records`.
pub open spec fn told(twins: Twins, path: Path, records: Seq<Telemetry>) -> Twins {
    touched(twins, path).insert(path, written(touched(twins, path)[path], records))
}

/// The names of the twins directly below `path`.
pub open spec fn children_of(twins: Twins, path: Path) -> Set<Seq<char>> {
    Set::new(|name: Seq<char>| twins.contains_key(path.push(name)))
}

/// No twin lies directly below `path`.
pub open spec fn childless(twins: Twins, path: Path) -> bool {
    forall|name: Seq<char>| !#[trigger] twins.contains_key(path.push(name))
}

/// The records that an envelope carries: none where it carries no payload.
pub open spec fn payload_of(envelope: Envelope) -> Seq<Telemetry> {
    match envelope.records {
        Some(records) => records,
        None => Seq::empty(),
    }
}

/// The space after `envelope` has been routed and handled. Telling writes at
/// the end of the route; asking changes nothing but what the route brings
/// into being.
pub open spec fn handled(twins: Twins, envelope: Envelope) -> Twins {
    match envelope.cmd {
        AuCmd::Tell => told(twins, envelope.path, payload_of(envelope)),
        _ => touched(twins, envelope.path),
    }
}

/// An envelope with `name` put in front of its path: the envelope as the
/// one sees it who hands it to the twin called `name`.
pub open spec fn addressed(name: Seq<char>, envelope: Envelope) -> Envelope {
    Envelope {
        cmd: envelope.cmd,
        records: envelope.records,
        path: Path::empty().push(name) + envelope.path,
    }
}

/// A root that has come into being just before an envelope is handed to
/// it makes no difference to what handling the envelope leaves behind.
pub proof fn lemma_handled_from_root(twins: Twins, name: Seq<char>, envelope: Envelope)
    ensures
        handled(touched(twins, Path::empty().push(name)), addressed(name, envelope)) == handled(
            twins,
            addressed(name, envelope),
        ),
{
    let stop = Path::empty().push(name);
    let to = addressed(name, envelope).path;
    assert(to.subrange(0, 1) =~= stop);
    lemma_touched_absorbs(twins, stop, to);
}

/// `answer` is what the twin that `question` is addressed to answers in the
/// space `twins`: its records to `Get`, the names of its children, in the
/// place of the path, to `Ls`. Nothing answers a `Tell`.
pub open spec fn answers(twins: Twins, question: Envelope, answer: Envelope) -> bool {
    match question.cmd {
        AuCmd::Get => {
            &&& answer.cmd == AuCmd::Get
            &&& answer.path.len() == 0
            &&& answer.records matches Some(records)
            &&& lists_state(records, twins[question.path])
        },
        AuCmd::Ls => {
            &&& answer.cmd == AuCmd::Ls
            &&& answer.records is None
            &&& lists_names(answer.path, children_of(twins, question.path))
        },
        AuCmd::Tell => false,
    }
}

/// What handling `question` in a space that is `twins` afterwards does to
/// the place where the answer is awaited, and what the sender learns.
pub open spec fn replied(
    twins: Twins,
    question: Envelope,
    before: Rendezvous,
    after: Rendezvous,
    sent: Result<(), AuError>,
) -> bool {
    if question.cmd == AuCmd::Tell {
        sent is Ok && after == before
    } else {
        &&& posted(before, after, sent)
        &&& awaits(before) ==> (after.response matches Some(answer) && answers(
            twins,
            question,
            answer,
        ))
    }
}

/// The space after each of `requests` has been handled in turn, from the
/// space `twins`.
pub open spec fn after_each(twins: Twins, requests: Seq<Envelope>) -> Twins
    decreases requests.len(),
{
    if requests.len() == 0 {
        twins
    } else {
        handled(after_each(twins, requests.drop_last()), requests.last())
    }
}

/// The space after each of `requests` has been handled in turn, from a
/// space without twins.
pub open spec fn after_all(requests: Seq<Envelope>) -> Twins {
    after_each(Map::empty(), requests)
}

/// Asking for the same twin again brings nothing new into being: whoever
/// asks, and however often, there is the one twin.
pub proof fn lemma_touched_again(twins: Twins, path: Path)
    ensures
        touched(touched(twins, path), path) == touched(twins, path),
{
    assert(touched(touched(twins, path), path) =~= touched(twins, path));
}

/// Where every twin on the way is there already, a message along `path`
/// brings nothing into being.
pub proof fn lemma_touched_nothing_new(twins: Twins, path: Path)
    requires
        forall|stop: Path| on_the_way(stop, path) ==> twins.contains_key(stop),
    ensures
        touched(twins, path) == twins,
{
    assert(touched(twins, path) =~= twins);
}

/// Telling in two turns is telling all of it in one: what was told later
/// is written later.
pub proof fn lemma_written_in_turn(state: State, first: Seq<Telemetry>, second: Seq<Telemetry>)
    ensures
        written(written(state, first), second) == written(state, first + second),
    decreases second.len(),
{
    if second.len() == 0 {
        assert(first + second =~= first);
    } else {
        lemma_written_in_turn(state, first, second.drop_last());
        assert((first + second).drop_last() =~= first + second.drop_last());
        assert((first + second).last() == second.last());
    }
}

/// What a state keeps after a write: what it kept before and what was
/// written.
pub proof fn lemma_written_names(state: State, records: Seq<Telemetry>, name: Seq<char>)
    ensures
        written(state, records).contains_key(name) <==> state.contains_key(name) || exists|i: int|
            0 <= i < records.len() && #[trigger] records[i].name == name,
        !(exists|i: int| 0 <= i < records.len() && #[trigger] records[i].name == name)
            && state.contains_key(name) ==> written(state, records)[name] == state[name],
    decreases records.len(),
{
    if records.len() > 0 {
        let earlier = records.drop_last();
        lemma_written_names(state, earlier, name);
        if exists|i: int| 0 <= i < earlier.len() && #[trigger] earlier[i].name == name {
            let i = choose|i: int| 0 <= i < earlier.len() && #[trigger] earlier[i].name == name;
            assert(records[i].name == name);
        }
        if exists|i: int| 0 <= i < records.len() && #[trigger] records[i].name == name {
            let i = choose|i: int| 0 <= i < records.len() && #[trigger] records[i].name == name;
            if i < earlier.len() {
                assert(earlier[i].name == name);
            }
        } else {
            assert(records[records.len() - 1].name != name);
        }
    }
}

/// The latest write wins: of the records of one name, the state keeps the
/// one that was written last.
pub proof fn lemma_latest_write_wins(state: State, records: Seq<Telemetry>, i: int)
    requires
        0 <= i < records.len(),
        forall|j: int| i < j < records.len() ==> records[j].name != records[i].name,
    ensures
        written(state, records).contains_key(records[i].name),
        written(state, records)[records[i].name] == records[i],
    decreases records.len(),
{
    if i < records.len() - 1 {
        let earlier = records.drop_last();
        assert(earlier[i] == records[i]);
        assert forall|j: int| i < j < earlier.len() implies earlier[j].name != earlier[i].name by {
            assert(earlier[j] == records[j]);
        }
        lemma_latest_write_wins(state, earlier, i);
    }
}

/// A list of a state shows the record of each name that the state keeps
/// exactly once: at the place that comes back, and nowhere else.
pub proof fn lemma_listed_once(list: Seq<Telemetry>, state: State, name: Seq<char>) -> (place: int)
    requires
        lists_state(list, state),
        state.contains_key(name),
    ensures
        0 <= place < list.len(),
        list[place] == state[name],
        list[place].name == name,
        forall|j: int| 0 <= j < list.len() && list[j].name == name ==> j == place,
{
    let place = choose|i: int| 0 <= i < list.len() && list[i].name == name;
    assert(state.contains_key(list[place].name) && state[list[place].name] == list[place]);
    place
}

/// A list of a state has as many records as the state keeps names.
pub proof fn lemma_lists_as_many(list: Seq<Telemetry>, state: State)
    requires
        lists_state(list, state),
    ensures
        state.dom().finite(),
        state.dom().len() == list.len(),
    decreases list.len(),
{
    if list.len() == 0 {
        assert(state.dom() =~= Set::empty());
    } else {
        let last = list.last();
        let rest = list.drop_last();
        let fewer = state.remove(last.name);
        assert forall|i: int| 0 <= i < rest.len() implies fewer.contains_key(
            #[trigger] rest[i].name,
        ) && fewer[rest[i].name] == rest[i] by {
            assert(rest[i] == list[i]);
            assert(state.contains_key(list[i].name));
        }
        assert forall|name: Seq<char>| #[trigger] fewer.contains_key(name) implies exists|i: int|
            0 <= i < rest.len() && rest[i].name == name by {
            assert(state.contains_key(name));
            let i = choose|i: int| 0 <= i < list.len() && list[i].name == name;
            assert(rest[i].name == name);
        }
        lemma_lists_as_many(rest, fewer);
        assert(state.contains_key(list[list.len() - 1].name));
        assert(state.dom() =~= fewer.dom().insert(last.name));
    }
}

/// A twin that keeps nothing answers with no records.
pub proof fn lemma_lists_nothing(list: Seq<Telemetry>)
    requires
        lists_state(list, Map::empty()),
    ensures
        list.len() == 0,
{
    if list.len() > 0 {
        assert(Map::<Seq<char>, Telemetry>::empty().contains_key(list[0].name));
    }
}

/// A twin that has been told records of different names, and nothing
/// before, answers with just these records.
pub proof fn lemma_lists_what_was_told(records: Seq<Telemetry>)
    requires
        forall|i: int, j: int| 0 <= i < j < records.len() ==> records[i].name != records[j].name,
    ensures
        lists_state(records, written(Map::empty(), records)),
{
    let state = written(Map::empty(), records);
    assert forall|i: int| 0 <= i < records.len() implies state.contains_key(
        #[trigger] records[i].name,
    ) && state[records[i].name] == records[i] by {
        lemma_latest_write_wins(Map::empty(), records, i);
    }
    assert forall|name: Seq<char>| #[trigger] state.contains_key(name) implies exists|i: int|
        0 <= i < records.len() && records[i].name == name by {
        lemma_written_names(Map::empty(), records, name);
        let i = choose|i: int| 0 <= i < records.len() && #[trigger] records[i].name == name;
        assert(records[i].name == name);
    }
}

/// Telling reaches the twin it is addressed to: that twin exists
/// afterwards, and keeps what it kept before with the records written into
/// it; a twin that was not there before kept nothing.
pub proof fn lemma_told_there(twins: Twins, path: Path, records: Seq<Telemetry>)
    requires
        path.len() > 0 || twins.contains_key(path),
    ensures
        told(twins, path, records).contains_key(path),
        told(twins, path, records)[path] == written(
            if twins.contains_key(path) {
                twins[path]
            } else {
                Map::empty()
            },
            records,
        ),
{
    lemma_touched_arrives(twins, path);
}

/// Telling reaches no other twin: every twin but the one addressed keeps
/// what it kept, and a twin that has come into being on the way keeps
/// nothing.
pub proof fn lemma_told_elsewhere(twins: Twins, path: Path, records: Seq<Telemetry>, other: Path)
    requires
        other != path,
    ensures
        told(twins, path, records).contains_key(other) <==> twins.contains_key(other)
            || on_the_way(other, path),
        twins.contains_key(other) ==> told(twins, path, records)[other] == twins[other],
        !twins.contains_key(other) && on_the_way(other, path) ==> told(
            twins,
            path,
            records,
        )[other] == Map::<Seq<char>, Telemetry>::empty(),
{
}

/// Telling the same twin in two turns is telling it all of it in one.
pub proof fn lemma_told_in_turn(
    twins: Twins,
    path: Path,
    first: Seq<Telemetry>,
    second: Seq<Telemetry>,
)
    requires
        path.len() > 0 || twins.contains_key(path),
    ensures
        told(told(twins, path, first), path, second) == told(twins, path, first + second),
{
    lemma_touched_arrives(twins, path);
    let once = told(twins, path, first);
    lemma_touched_arrives(once, path);
    lemma_written_in_turn(touched(twins, path)[path], first, second);
    assert(touched(once, path) =~= once);
    assert(told(once, path, second) =~= told(twins, path, first + second));
}

/// A twin that is told a record and then another of the same name, and is
/// asked then, answers with the second and not with the first: its answer
/// holds one record of that name, at the place that comes back.
pub proof fn lemma_told_again_answers_latest(
    twins: Twins,
    path: Path,
    first: Telemetry,
    second: Telemetry,
    answer: Seq<Telemetry>,
) -> (place: int)
    requires
        path.len() > 0 || twins.contains_key(path),
        first.name == second.name,
        lists_state(
            answer,
            touched(
                told(told(twins, path, Seq::empty().push(first)), path, Seq::empty().push(second)),
                path,
            )[path],
        ),
    ensures
        0 <= place < answer.len(),
        answer[place] == second,
        forall|j: int| 0 <= j < answer.len() && answer[j].name == second.name ==> j == place,
{
    let one = Seq::empty().push(first);
    let two = Seq::empty().push(second);
    let after = told(told(twins, path, one), path, two);
    lemma_told_in_turn(twins, path, one, two);
    lemma_told_there(twins, path, one + two);
    lemma_touched_arrives(after, path);
    lemma_latest_write_wins(
        if twins.contains_key(path) {
            twins[path]
        } else {
            Map::empty()
        },
        one + two,
        1,
    );
    lemma_listed_once(answer, after[path], second.name)
}

/// A twin that was never told anything keeps nothing, whatever else has
/// been told and asked, of it or of any other twin.
pub proof fn lemma_never_told(requests: Seq<Envelope>, path: Path)
    requires
        forall|i: int|
            0 <= i < requests.len() && requests[i].cmd == AuCmd::Tell ==> requests[i].path != path,
    ensures
        after_all(requests).contains_key(path) ==> after_all(requests)[path] == Map::<
            Seq<char>,
            Telemetry,
        >::empty(),
        path.len() > 0 ==> touched(after_all(requests), path)[path] == Map::<
            Seq<char>,
            Telemetry,
        >::empty(),
    decreases requests.len(),
{
    if requests.len() > 0 {
        let earlier = requests.drop_last();
        assert forall|i: int| 0 <= i < earlier.len() && earlier[i].cmd == AuCmd::Tell implies
            earlier[i].path != path by {
            assert(earlier[i] == requests[i]);
        }
        lemma_never_told(earlier, path);
        assert(requests.last() == requests[requests.len() - 1]);
    }
    if path.len() > 0 {
        lemma_touched_arrives(after_all(requests), path);
    }
}

/// The records that `requests` tell the twin at `path`, in the order in
/// which they are told.
pub open spec fn told_to(requests: Seq<Envelope>, path: Path) -> Seq<Telemetry>
    decreases requests.len(),
{
    if requests.len() == 0 {
        Seq::empty()
    } else if requests.last().cmd == AuCmd::Tell && requests.last().path == path {
        told_to(requests.drop_last(), path) + payload_of(requests.last())
    } else {
        told_to(requests.drop_last(), path)
    }
}

/// What a space is after any run of requests: the twins that exist are
/// those on the way of a request, and each of them keeps what it was told,
/// in the order in which it was told, and nothing else.
pub proof fn lemma_after_all(requests: Seq<Envelope>, path: Path)
    requires
        forall|i: int| 0 <= i < requests.len() ==> (#[trigger] requests[i]).path.len() > 0,
    ensures
        after_all(requests).contains_key(path) <==> exists|i: int|
            0 <= i < requests.len() && on_the_way(path, (#[trigger] requests[i]).path),
        after_all(requests).contains_key(path) ==> after_all(requests)[path] == written(
            Map::empty(),
            told_to(requests, path),
        ),
        !after_all(requests).contains_key(path) ==> told_to(requests, path) == Seq::<
            Telemetry,
        >::empty(),
    decreases requests.len(),
{
    if requests.len() > 0 {
        let earlier = requests.drop_last();
        let last = requests.last();
        let before = after_all(earlier);
        let after = after_all(requests);
        assert(last == requests[requests.len() - 1]);
        assert forall|i: int| 0 <= i < earlier.len() implies (#[trigger] earlier[i]).path.len()
            > 0 by {
            assert(earlier[i] == requests[i]);
        }
        lemma_after_all(earlier, path);
        lemma_touched_arrives(before, last.path);
        if exists|i: int| 0 <= i < earlier.len() && on_the_way(path, (#[trigger] earlier[i]).path) {
            let i = choose|i: int|
                0 <= i < earlier.len() && on_the_way(path, (#[trigger] earlier[i]).path);
            assert(earlier[i] == requests[i]);
        }
        if exists|i: int|
            0 <= i < requests.len() && on_the_way(path, (#[trigger] requests[i]).path) {
            let i = choose|i: int|
                0 <= i < requests.len() && on_the_way(path, (#[trigger] requests[i]).path);
            if i < earlier.len() {
                assert(earlier[i] == requests[i]);
            }
        }
        if path == last.path {
            assert(last.path.subrange(0, last.path.len() as int) =~= last.path);
        }
        if last.cmd == AuCmd::Tell && last.path == path {
            lemma_written_in_turn(Map::empty(), told_to(earlier, path), payload_of(last));
            assert(told_to(earlier, path) + payload_of(last) == told_to(requests, path));
            if !before.contains_key(path) {
                assert(Seq::<Telemetry>::empty() + payload_of(last) =~= payload_of(last));
            }
        }
    }
}

/// Twins that come into being along two paths are the same twins,
/// whichever path was taken first.
pub proof fn lemma_touched_either_order(twins: Twins, one: Path, other: Path)
    ensures
        touched(touched(twins, one), other) == touched(touched(twins, other), one),
{
    assert(touched(touched(twins, one), other) =~= touched(touched(twins, other), one));
}

/// A message that goes through a twin to a child of it makes that child
/// one of the twin's children, and no message takes a child away.
pub proof fn lemma_children_grow(twins: Twins, parent: Path, name: Seq<char>, path: Path)
    ensures
        children_of(touched(twins, parent.push(name)), parent).contains(name),
        children_of(twins, parent).subset_of(children_of(touched(twins, path), parent)),
{
    let child = parent.push(name);
    assert(child.subrange(0, child.len() as int) =~= child);
}

/// After messages to two children of a twin, in either order, a list of
/// the twin's children shows both: each of them once, and at different
/// places where their names differ.
pub proof fn lemma_lists_both_children(
    twins: Twins,
    parent: Path,
    one: Seq<char>,
    other: Seq<char>,
    list: Seq<Seq<char>>,
) -> (places: (int, int))
    requires
        lists_names(
            list,
            children_of(touched(touched(twins, parent.push(one)), parent.push(other)), parent),
        ),
    ensures
        touched(touched(twins, parent.push(one)), parent.push(other)) == touched(
            touched(twins, parent.push(other)),
            parent.push(one),
        ),
        0 <= places.0 < list.len(),
        0 <= places.1 < list.len(),
        list[places.0] == one,
        list[places.1] == other,
        forall|j: int| 0 <= j < list.len() && list[j] == one ==> j == places.0,
        forall|j: int| 0 <= j < list.len() && list[j] == other ==> j == places.1,
        one != other ==> places.0 != places.1,
{
    let first = touched(twins, parent.push(one));
    let both = touched(first, parent.push(other));
    lemma_touched_either_order(twins, parent.push(one), parent.push(other));
    lemma_children_grow(twins, parent, one, parent.push(other));
    lemma_children_grow(first, parent, other, parent.push(other));
    let names = children_of(both, parent);
    assert(children_of(first, parent).contains(one));
    assert(names.contains(one));
    assert(names.contains(other));
    let a = choose|i: int| 0 <= i < list.len() && list[i] == one;
    let b = choose|i: int| 0 <= i < list.len() && list[i] == other;
    (a, b)
}

/// The twins that exist after a run of requests are those that existed
/// before and those on the way of one of the requests.
pub proof fn lemma_after_each_exists(twins: Twins, requests: Seq<Envelope>, q: Path)
    requires
        forall|i: int| 0 <= i < requests.len() ==> (#[trigger] requests[i]).path.len() > 0,
    ensures
        after_each(twins, requests).contains_key(q) <==> twins.contains_key(q) || exists|i: int|
            0 <= i < requests.len() && on_the_way(q, (#[trigger] requests[i]).path),
    decreases requests.len(),
{
    if requests.len() > 0 {
        let earlier = requests.drop_last();
        let last = requests.last();
        assert(last == requests[requests.len() - 1]);
        assert forall|i: int| 0 <= i < earlier.len() implies (#[trigger] earlier[i]).path.len()
            > 0 by {
            assert(earlier[i] == requests[i]);
        }
        lemma_after_each_exists(twins, earlier, q);
        if exists|i: int| 0 <= i < earlier.len() && on_the_way(q, (#[trigger] earlier[i]).path) {
            let i = choose|i: int|
                0 <= i < earlier.len() && on_the_way(q, (#[trigger] earlier[i]).path);
            assert(earlier[i] == requests[i]);
        }
        if exists|i: int| 0 <= i < requests.len() && on_the_way(q, (#[trigger] requests[i]).path) {
            let i = choose|i: int|
                0 <= i < requests.len() && on_the_way(q, (#[trigger] requests[i]).path);
            if i < earlier.len() {
                assert(earlier[i] == requests[i]);
            }
        }
        if q == last.path {
            assert(last.path.subrange(0, last.path.len() as int) =~= last.path);
        }
    }
}

/// Of two children of one twin, the one lies on the way to the other
/// only where they are the same child.
pub proof fn lemma_on_the_way_sibling(parent: Path, name: Seq<char>, other: Seq<char>)
    ensures
        on_the_way(parent.push(name), parent.push(other)) <==> name == other,
        !on_the_way(parent.push(name), parent),
{
    let to = parent.push(other);
    assert(to.subrange(0, to.len() as int) =~= to);
    if on_the_way(parent.push(name), to) {
        assert(parent.push(name).last() == name);
        assert(to.last() == other);
    }
}

/// A list of two different names, and of nothing else, holds the one and
/// the other, in either order.
pub proof fn lemma_lists_two(list: Seq<Seq<char>>, one: Seq<char>, other: Seq<char>)
    requires
        one != other,
        lists_names(list, Set::empty().insert(one).insert(other)),
    ensures
        list == Seq::empty().push(one).push(other) || list == Seq::empty().push(other).push(one),
{
    let names = Set::empty().insert(one).insert(other);
    assert(names.contains(one));
    assert(names.contains(other));
    let a = choose|i: int| 0 <= i < list.len() && list[i] == one;
    let b = choose|i: int| 0 <= i < list.len() && list[i] == other;
    if list.len() > 2 {
        assert(names.contains(list[0]) && names.contains(list[1]) && names.contains(list[2]));
    }
    if a == 0 {
        assert(list =~= Seq::empty().push(one).push(other));
    } else {
        assert(list =~= Seq::empty().push(other).push(one));
    }
}

/// After a run of requests to two children of a twin, each of the two
/// addressed at least once, in whatever order and however often, the
/// twin's children are those it had and the two. Where it had none, a
/// list of its children holds just the two names, each once, whichever
/// of them comes first.
pub proof fn lemma_lists_the_two_children(
    twins: Twins,
    parent: Path,
    one: Seq<char>,
    other: Seq<char>,
    requests: Seq<Envelope>,
    list: Seq<Seq<char>>,
)
    requires
        one != other,
        forall|i: int|
            0 <= i < requests.len() ==> (#[trigger] requests[i]).path == parent.push(one)
                || requests[i].path == parent.push(other),
        exists|i: int| 0 <= i < requests.len() && (#[trigger] requests[i]).path == parent.push(one),
        exists|i: int|
            0 <= i < requests.len() && (#[trigger] requests[i]).path == parent.push(other),
        lists_names(list, children_of(touched(after_each(twins, requests), parent), parent)),
    ensures
        children_of(touched(after_each(twins, requests), parent), parent) == children_of(
            twins,
            parent,
        ).insert(one).insert(other),
        childless(twins, parent) ==> list == Seq::empty().push(one).push(other) || list
            == Seq::empty().push(other).push(one),
{
    let after = after_each(twins, requests);
    let shown = children_of(touched(after, parent), parent);
    let grown = children_of(twins, parent).insert(one).insert(other);
    assert forall|name: Seq<char>| shown.contains(name) <==> grown.contains(name) by {
        let child = parent.push(name);
        lemma_after_each_exists(twins, requests, child);
        lemma_on_the_way_sibling(parent, name, one);
        lemma_on_the_way_sibling(parent, name, other);
        if name == one {
            let i = choose|i: int|
                0 <= i < requests.len() && (#[trigger] requests[i]).path == parent.push(one);
            assert(on_the_way(child, requests[i].path));
        }
        if name == other {
            let i = choose|i: int|
                0 <= i < requests.len() && (#[trigger] requests[i]).path == parent.push(other);
            assert(on_the_way(child, requests[i].path));
        }
    }
    assert(shown =~= grown);
    if childless(twins, parent) {
        assert(children_of(twins, parent) =~= Set::empty());
        lemma_lists_two(list, one, other);
    }
}

} // verus!
