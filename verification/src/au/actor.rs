//! The main building block of the Augorama system. The actor ingests `AuMsg`
//! messages.
//!
//! These messages may be:
//!   * updates containing new telemetry to advance state.
//!   * queries for state information.
//!   * queries for the names of the actor's children.

use vstd::prelude::*;

use crate::au::model::{AuCmd, AuError, AuMsg, AuState, AuTelemetry};
use crate::au::reply::ReplySlot;
use crate::au::twins::{
    addressed, awaits, children_of, handled, lemma_on_the_way_step, lemma_touched_absorbs,
    lemma_touched_arrives, lists_names, lists_state, on_the_way, posted, replied, told, touched,
    written, Envelope, Path, Rendezvous, State, Twins,
};

verus! {

/// A twin: it goes by a name, keeps its own state and owns its children.
#[derive(Debug)]
pub struct AugieActor {
    name: String,
    state: AuState,
    children: Vec<AugieActor>,
}

impl View for AugieActor {
    type V = Twins;

    /// The twin itself, under the empty path, and every twin below it, each
    /// under the path that leads to it from here.
    closed spec fn view(&self) -> Twins {
        Map::new(|q: Path| self.twin(q) is Some, |q: Path| self.twin(q).unwrap())
    }
}

/// Whether one of `family` goes by `name`.
pub(crate) closed spec fn has_twin(family: Seq<AugieActor>, name: Seq<char>) -> bool {
    exists|i: int| 0 <= i < family.len() && #[trigger] family[i].name@ == name
}

/// The place in `family` of one that goes by `name`.
pub(crate) closed spec fn place_of_twin(family: Seq<AugieActor>, name: Seq<char>) -> int {
    choose|i: int| 0 <= i < family.len() && #[trigger] family[i].name@ == name
}

/// No two of `family` go by the same name, and each of them is well-formed.
pub(crate) closed spec fn family_wf(family: Seq<AugieActor>) -> bool {
    &&& forall|i: int, j: int| 0 <= i < j < family.len() ==> family[i].name@ != family[j].name@
    &&& forall|i: int| 0 <= i < family.len() ==> (#[trigger] family[i]).wf()
}

/// The state of the twin under `q` in the space of `family`, if there is one.
spec fn family_twin(family: Seq<AugieActor>, q: Path) -> Option<State> {
    if q.len() > 0 && has_twin(family, q[0]) {
        family[place_of_twin(family, q[0])].twin(q.drop_first())
    } else {
        None
    }
}

/// The twins of `family` and every twin below them, each under the path
/// that begins with the name of the one of `family` that it is or lies below.
pub(crate) closed spec fn family_view(family: Seq<AugieActor>) -> Twins {
    Map::new(|q: Path| family_twin(family, q) is Some, |q: Path| family_twin(family, q).unwrap())
}

/// What a well-formed family is, in words that other files can read.
pub(crate) proof fn lemma_family_facts(family: Seq<AugieActor>)
    requires
        family_wf(family),
    ensures
        forall|i: int, j: int|
            0 <= i < j < family.len() ==> family[i].spec_name() != family[j].spec_name(),
        forall|i: int| 0 <= i < family.len() ==> (#[trigger] family[i]).wf(),
{
}

/// The names of a family are the one-name paths of its space.
pub(crate) proof fn lemma_family_has(family: Seq<AugieActor>, name: Seq<char>)
    ensures
        has_twin(family, name) <==> exists|i: int|
            0 <= i < family.len() && #[trigger] family[i].spec_name() == name,
        has_twin(family, name) <==> family_view(family).contains_key(Path::empty().push(name)),
        has_twin(family, name) <==> children_of(family_view(family), Path::empty()).contains(name),
{
    let q = Path::empty().push(name);
    if has_twin(family, name) {
        let k = place_of_twin(family, name);
        assert(family[k].spec_name() == name);
        assert(q.drop_first().len() == 0);
    }
    if exists|i: int| 0 <= i < family.len() && #[trigger] family[i].spec_name() == name {
        let k = choose|i: int| 0 <= i < family.len() && #[trigger] family[i].spec_name() == name;
        assert(family[k].name@ == name);
    }
}

/// What a family's space holds under a path that begins with the name of
/// one of them is what that one's space holds under the rest of the path.
proof fn lemma_family_below(family: Seq<AugieActor>, i: int, q: Path)
    requires
        family_wf(family),
        0 <= i < family.len(),
        q.len() > 0,
        q[0] == family[i].spec_name(),
    ensures
        family_view(family).contains_key(q) <==> family[i]@.contains_key(q.drop_first()),
        family_view(family).contains_key(q) ==> family_view(family)[q] == family[i]@[q.drop_first()],
{
    assert(family[i].name@ == q[0]);
    assert(has_twin(family, q[0]));
    assert(place_of_twin(family, q[0]) == i);
}

/// A family's space holds nothing under the empty path, nor under a path
/// that begins with a name that none of them goes by.
pub(crate) proof fn lemma_family_not_below(family: Seq<AugieActor>, q: Path)
    requires
        q.len() == 0 || !has_twin(family, q[0]),
    ensures
        !family_view(family).contains_key(q),
{
}

/// A family of nobody is well-formed, and its space is without twins.
pub(crate) proof fn lemma_family_empty(family: Seq<AugieActor>)
    requires
        family.len() == 0,
    ensures
        family_wf(family),
        family_view(family) == Map::<Path, State>::empty(),
{
    assert(family_view(family) =~= Map::<Path, State>::empty());
}

/// Where the two families agree on the place that `q` begins with, they
/// agree on `q`.
proof fn lemma_family_same(before: Seq<AugieActor>, after: Seq<AugieActor>, q: Path)
    requires
        family_wf(before),
        family_wf(after),
        before.len() <= after.len(),
        forall|k: int| 0 <= k < after.len() && q.len() > 0 && after[k].name@ == q[0] ==> k
            < before.len() && before[k] == after[k],
        forall|k: int| 0 <= k < before.len() ==> before[k].name@ == after[k].name@,
    ensures
        family_view(after).contains_key(q) <==> family_view(before).contains_key(q),
        family_view(after).contains_key(q) ==> family_view(after)[q] == family_view(before)[q],
{
    if q.len() > 0 {
        if has_twin(before, q[0]) {
            let k = place_of_twin(before, q[0]);
            assert(after[k].name@ == q[0]);
            lemma_family_below(before, k, q);
            lemma_family_below(after, k, q);
        } else if has_twin(after, q[0]) {
            let k = place_of_twin(after, q[0]);
            assert(before[k].name@ == q[0]);
        }
    }
}

/// A twin that has just come into being in a family, under a name that
/// none of them went by, is all that is new in the family's space.
proof fn lemma_family_adopted(before: Seq<AugieActor>, after: Seq<AugieActor>, name: Seq<char>)
    requires
        family_wf(before),
        !has_twin(before, name),
        after.len() == before.len() + 1,
        after.drop_last() == before,
        after.last().wf(),
        after.last().name@ == name,
        after.last()@ == Map::<Path, State>::empty().insert(Path::empty(), Map::empty()),
    ensures
        family_wf(after),
        family_view(after) == touched(family_view(before), Path::empty().push(name)),
{
    let stop = Path::empty().push(name);
    let last = before.len() as int;
    let grown = touched(family_view(before), stop);
    assert forall|k: int| 0 <= k < last implies after[k] == before[k] by {
        assert(after.drop_last()[k] == after[k]);
    }
    assert forall|i: int, j: int| 0 <= i < j < after.len() implies after[i].name@
        != after[j].name@ by {
        if j == last {
            assert(before[i].name@ != name);
        }
    }
    assert(family_wf(after));
    assert forall|q: Path|
        #![trigger family_view(after).contains_key(q)]
        (family_view(after).contains_key(q) <==> grown.contains_key(q)) && (family_view(
            after,
        ).contains_key(q) ==> family_view(after)[q] == grown[q]) by {
        if q.len() == 0 {
        } else if q[0] == name {
            lemma_family_below(after, last, q);
            lemma_family_not_below(before, q);
            lemma_on_the_way_step(q, stop);
            if q.len() == 1 {
                assert(q.drop_first() =~= Path::empty());
            }
        } else {
            lemma_on_the_way_step(q, stop);
            lemma_family_same(before, after, q);
        }
    }
    assert(family_view(after) =~= grown);
}

/// What handling an envelope does below one of a family is what handling
/// the envelope with that one's name in front does to the family.
proof fn lemma_family_forwarded(
    before: Seq<AugieActor>,
    after: Seq<AugieActor>,
    i: int,
    onward: Envelope,
    slot_before: Rendezvous,
    slot_after: Rendezvous,
    sent: Result<(), AuError>,
)
    requires
        family_wf(before),
        0 <= i < before.len(),
        after.len() == before.len(),
        after == before.update(i, after[i]),
        after[i].wf(),
        after[i].name@ == before[i].name@,
        after[i]@ == handled(before[i]@, onward),
        replied(after[i]@, onward, slot_before, slot_after, sent),
    ensures
        family_wf(after),
        family_view(after) == handled(family_view(before), addressed(before[i].name@, onward)),
        replied(
            family_view(after),
            addressed(before[i].name@, onward),
            slot_before,
            slot_after,
            sent,
        ),
{
    let next = before[i].name@;
    let envelope = addressed(next, onward);
    let p = envelope.path;
    let rest = onward.path;
    let child = before[i];
    let grown = after[i];
    let space = family_view(before);
    let result = handled(space, envelope);
    let around = touched(space, p);
    let below = touched(child@, rest);
    assert(p.drop_first() =~= rest);
    assert forall|k: int| 0 <= k < after.len() implies (#[trigger] after[k]).wf() && after[k].name@
        == before[k].name@ by {
        if k != i {
            assert(after[k] == before[k]);
        }
    }
    assert(family_wf(after));
    child.lemma_is_there();
    lemma_family_below(before, i, p);
    lemma_family_below(after, i, p);
    lemma_touched_arrives(space, p);
    lemma_touched_arrives(child@, rest);
    assert forall|q: Path|
        #![trigger family_view(after).contains_key(q)]
        (family_view(after).contains_key(q) <==> result.contains_key(q)) && (family_view(
            after,
        ).contains_key(q) ==> family_view(after)[q] == result[q]) by {
        if q.len() == 0 {
            assert(q != p);
        } else {
            lemma_on_the_way_step(q, p);
            if q[0] == next {
                let r = q.drop_first();
                lemma_family_below(after, i, q);
                lemma_family_below(before, i, q);
                if r.len() == 0 {
                    assert(r =~= Path::empty());
                }
                if family_view(after).contains_key(q) {
                    if envelope.cmd == AuCmd::Tell && q == p {
                        assert(r == rest);
                        assert(around[p] == below[rest]);
                    } else {
                        assert(grown@[r] == below[r]);
                        assert(result[q] == around[q]);
                        assert(around[q] == below[r]);
                    }
                }
            } else {
                assert(q != p);
                assert(result.contains_key(q) <==> space.contains_key(q));
                assert(space.contains_key(q) ==> result[q] == space[q]);
                assert forall|k: int| 0 <= k < after.len() && after[k].name@ == q[0] implies k
                    < before.len() && before[k] == after[k] by {
                    assert(k != i);
                }
                lemma_family_same(before, after, q);
            }
        }
    }
    assert(family_view(after) =~= result);
    if envelope.cmd == AuCmd::Ls {
        assert forall|name: Seq<char>|
            children_of(family_view(after), p).contains(name) <==> children_of(
                grown@,
                rest,
            ).contains(name) by {
            lemma_family_below(after, i, p.push(name));
            assert(p.push(name).drop_first() =~= rest.push(name));
        }
        assert(children_of(family_view(after), p) =~= children_of(grown@, rest));
    }
}

/// Looks among `family` for the one that goes by `name`.
pub(crate) fn find_twin(family: &Vec<AugieActor>, name: &String) -> (found: Option<usize>)
    ensures
        match found {
            Some(i) => i < family@.len() && family@[i as int].spec_name() == name@,
            None => !has_twin(family@, name@),
        },
{
    let mut i: usize = 0;
    while i < family.len()
        invariant
            i <= family@.len(),
            forall|k: int| 0 <= k < i ==> family@[k].name@ != name@,
        decreases family@.len() - i,
    {
        if family[i].name == *name {
            return Some(i);
        }
        i += 1;
    }
    None
}

/// The place in `family` of the twin that goes by `name`. Where none does,
/// a new twin of that name, with nothing in its state and no children,
/// joins the family first.
pub(crate) fn adopt(family: &mut Vec<AugieActor>, name: String) -> (place: usize)
    requires
        family_wf(old(family)@),
    ensures
        family_wf(final(family)@),
        place < final(family)@.len(),
        final(family)@[place as int].spec_name() == name@,
        family_view(final(family)@) == touched(
            family_view(old(family)@),
            Path::empty().push(name@),
        ),
        has_twin(old(family)@, name@) ==> *final(family) == *old(family),
        !has_twin(old(family)@, name@) ==> place == old(family)@.len() && final(family)@.drop_last()
            == old(family)@,
{
    match find_twin(family, &name) {
        Some(place) => {
            proof {
                let stop = Path::empty().push(name@);
                let space = family_view(family@);
                lemma_family_below(family@, place as int, stop);
                family@[place as int].lemma_is_there();
                assert(stop.drop_first() =~= Path::empty());
                assert forall|q: Path| on_the_way(q, stop) implies space.contains_key(q) by {
                    assert(stop.subrange(0, 1) =~= stop);
                }
                assert(touched(space, stop) =~= space);
            }
            place
        },
        None => {
            family.push(AugieActor::actor(name));
            proof {
                assert(family@.drop_last() =~= old(family)@);
                lemma_family_adopted(old(family)@, family@, name@);
            }
            family.len() - 1
        },
    }
}

/// The names that the twins of `family` go by.
pub(crate) fn names_of(family: &Vec<AugieActor>) -> (names: Vec<String>)
    requires
        family_wf(family@),
    ensures
        lists_names(names.deep_view(), children_of(family_view(family@), Path::empty())),
{
    let mut names: Vec<String> = Vec::new();
    let mut i: usize = 0;
    while i < family.len()
        invariant
            i <= family@.len(),
            names@.len() == i,
            forall|k: int| 0 <= k < i ==> names@[k]@ == family@[k].name@,
        decreases family@.len() - i,
    {
        names.push(family[i].name.clone());
        i += 1;
    }
    proof {
        let list = names.deep_view();
        let set = children_of(family_view(family@), Path::empty());
        assert forall|k: int| 0 <= k < list.len() implies set.contains(#[trigger] list[k]) by {
            assert(family@[k].name@ == list[k]);
            lemma_family_has(family@, list[k]);
        }
        assert forall|name: Seq<char>| #[trigger] set.contains(name) implies exists|k: int|
            0 <= k < list.len() && list[k] == name by {
            lemma_family_has(family@, name);
            let k = place_of_twin(family@, name);
            assert(list[k] == name);
        }
    }
    names
}

/// Hands `envelope` to the twin at `place` in `family`.
pub(crate) fn hand_on(
    family: &mut Vec<AugieActor>,
    place: usize,
    envelope: AuMsg<Vec<AuTelemetry>>,
    reply_to: &mut ReplySlot,
) -> (sent: Result<(), AuError>)
    requires
        family_wf(old(family)@),
        place < old(family)@.len(),
    ensures
        family_wf(final(family)@),
        final(family)@.len() == old(family)@.len(),
        forall|k: int|
            0 <= k < final(family)@.len() ==> (#[trigger] final(family)@[k]).spec_name() == old(
                family,
            )@[k].spec_name(),
        family_view(final(family)@) == handled(
            family_view(old(family)@),
            addressed(old(family)@[place as int].spec_name(), envelope@),
        ),
        replied(
            family_view(final(family)@),
            addressed(old(family)@[place as int].spec_name(), envelope@),
            old(reply_to)@,
            final(reply_to)@,
            sent,
        ),
    decreases envelope.path@.len(), 2int,
{
    let ghost onward = envelope@;
    let sent = family[place].dispatch(envelope, reply_to);
    proof {
        lemma_family_forwarded(
            old(family)@,
            family@,
            place as int,
            onward,
            old(reply_to)@,
            reply_to@,
            sent,
        );
        assert forall|k: int| 0 <= k < family@.len() implies (#[trigger] family@[k]).spec_name()
            == old(family)@[k].spec_name() by {
            if k != place {
                assert(family@[k] == old(family)@[k]);
            }
        }
    }
    sent
}

impl AugieActor {
    /// The name that the twin goes by.
    pub closed spec fn spec_name(&self) -> Seq<char> {
        self.name@
    }

    /// No two children of a twin go by the same name, and no store keeps two
    /// records of one name; so all the way down.
    pub closed spec fn wf(&self) -> bool
        decreases self,
    {
        &&& self.state.wf()
        &&& forall|i: int, j: int|
            0 <= i < j < self.children@.len() ==> self.children@[i].name@
                != self.children@[j].name@
        &&& forall|i: int| 0 <= i < self.children@.len() ==> (#[trigger] self.children@[i]).wf()
    }

    /// The state of the twin under `q` from here, if there is one.
    spec fn twin(&self, q: Path) -> Option<State>
        decreases q.len(),
    {
        if q.len() == 0 {
            Some(self.state@)
        } else if has_twin(self.children@, q[0]) {
            self.children@[place_of_twin(self.children@, q[0])].twin(q.drop_first())
        } else {
            None
        }
    }

    /// A twin exists under the empty path of its own view.
    pub proof fn lemma_is_there(&self)
        ensures
            self@.contains_key(Path::empty()),
    {
    }

    /// A twin's space is that of its children and itself.
    proof fn lemma_view(&self)
        ensures
            self@ == family_view(self.children@).insert(Path::empty(), self.state@),
            self.wf() <==> self.state.wf() && family_wf(self.children@),
    {
        assert forall|q: Path|
            #![trigger self@.contains_key(q)]
            (self@.contains_key(q) <==> family_view(self.children@).insert(
                Path::empty(),
                self.state@,
            ).contains_key(q)) && (self@.contains_key(q) ==> self@[q] == family_view(
                self.children@,
            ).insert(Path::empty(), self.state@)[q]) by {
            if q.len() == 0 {
                assert(q =~= Path::empty());
            }
        }
        assert(self@ =~= family_view(self.children@).insert(Path::empty(), self.state@));
    }

    /// A new twin called `name`, with nothing in its state and no children.
    pub fn actor(name: String) -> (twin: Self)
        ensures
            twin.wf(),
            twin.spec_name() == name@,
            twin@ == Map::<Path, State>::empty().insert(Path::empty(), Map::empty()),
    {
        let twin = AugieActor { name, state: AuState::new(), children: Vec::new() };
        proof {
            twin.lemma_view();
            lemma_family_empty(twin.children@);
        }
        twin
    }

    /// The name that the twin goes by.
    pub fn name(&self) -> (name: &String)
        ensures
            name@ == self.spec_name(),
    {
        &self.name
    }

    /// Writes `records` into the twin's own state, one after the other: the
    /// latest record of each name is the one that stays.
    pub fn update(&mut self, records: &Vec<AuTelemetry>)
        requires
            old(self).wf(),
        ensures
            final(self).wf(),
            final(self).spec_name() == old(self).spec_name(),
            final(self)@ == told(old(self)@, Path::empty(), records.deep_view()),
    {
        let ghost all = records.deep_view();
        let mut i: usize = 0;
        while i < records.len()
            invariant
                i <= records@.len(),
                all == records.deep_view(),
                self.state.wf(),
                self.name == old(self).name,
                self.children == old(self).children,
                self.state@ == written(old(self).state@, all.take(i as int)),
            decreases records@.len() - i,
        {
            proof {
                assert(all.take(i + 1).drop_last() =~= all.take(i as int));
                assert(all.take(i + 1).last() == records@[i as int]@);
            }
            self.state.insert(records[i].clone());
            i += 1;
        }
        proof {
            assert(all.take(i as int) =~= all);
            old(self).lemma_view();
            self.lemma_view();
            assert(self@ =~= told(old(self)@, Path::empty(), all));
        }
    }

    /// Answers with a copy of every record of the twin's own state: the
    /// envelope goes back as it came, with the records in it.
    pub fn report_state(&self, msg: AuMsg<Vec<AuTelemetry>>, reply_to: &mut ReplySlot) -> (sent:
        Result<(), AuError>)
        requires
            self.wf(),
        ensures
            posted(old(reply_to)@, final(reply_to)@, sent),
            awaits(old(reply_to)@) ==> (final(reply_to)@.response matches Some(answer) && {
                &&& answer.cmd == msg.cmd
                &&& answer.path == msg@.path
                &&& answer.records matches Some(records)
                &&& lists_state(records, self@[Path::empty()])
            }),
    {
        let response = AuMsg { cmd: msg.cmd, msg: Some(self.state.values()), path: msg.path };
        proof {
            self.lemma_view();
        }
        reply_to.fulfil(response)
    }

    /// Answers with the names of the twin's children, which travel in the
    /// place of the envelope's path.
    pub fn report_children(&self, reply_to: &mut ReplySlot) -> (sent: Result<(), AuError>)
        requires
            self.wf(),
        ensures
            posted(old(reply_to)@, final(reply_to)@, sent),
            awaits(old(reply_to)@) ==> (final(reply_to)@.response matches Some(answer) && {
                &&& answer.cmd == AuCmd::Ls
                &&& answer.records is None
                &&& lists_names(answer.path, children_of(self@, Path::empty()))
            }),
    {
        proof {
            self.lemma_view();
        }
        let child_names = names_of(&self.children);
        proof {
            assert(children_of(self@, Path::empty()) =~= children_of(
                family_view(self.children@),
                Path::empty(),
            ));
        }
        let cmsg: AuMsg<Vec<AuTelemetry>> = AuMsg { cmd: AuCmd::Ls, msg: None, path: child_names };
        reply_to.fulfil(cmsg)
    }

    /// Routes `envelope` and handles it where it arrives. An envelope with
    /// an empty path is handled here: a `Tell` writes its records, a `Get`
    /// is answered with the state, an `Ls` with the names of the children.
    /// Any other envelope goes on to the child that its path names first.
    /// The twin that handles the envelope answers to `reply_to` itself.
    pub fn dispatch(&mut self, envelope: AuMsg<Vec<AuTelemetry>>, reply_to: &mut ReplySlot) -> (sent:
        Result<(), AuError>)
        requires
            old(self).wf(),
        ensures
            final(self).wf(),
            final(self).spec_name() == old(self).spec_name(),
            final(self)@ == handled(old(self)@, envelope@),
            replied(final(self)@, envelope@, old(reply_to)@, final(reply_to)@, sent),
        decreases envelope.path@.len(), 1int,
    {
        if !envelope.path.is_empty() {
            self.fwd(envelope, reply_to)
        } else {
            proof {
                assert(envelope@.path =~= Path::empty());
                self.lemma_is_there();
                assert(touched(self@, Path::empty()) =~= self@);
                assert(told(self@, Path::empty(), Seq::empty()) =~= self@);
            }
            match envelope.cmd {
                AuCmd::Get => self.report_state(envelope, reply_to),
                AuCmd::Tell => {
                    match envelope.msg {
                        Some(records) => self.update(&records),
                        None => {},
                    }
                    Ok(())
                },
                AuCmd::Ls => self.report_children(reply_to),
            }
        }
    }

    /// Hands `envelope` to the child that its path names first, shortened
    /// by that name. A child that is not there yet comes into being, empty.
    /// An envelope that names no child cannot be forwarded.
    pub fn fwd(&mut self, envelope: AuMsg<Vec<AuTelemetry>>, reply_to: &mut ReplySlot) -> (sent:
        Result<(), AuError>)
        requires
            old(self).wf(),
        ensures
            final(self).wf(),
            final(self).spec_name() == old(self).spec_name(),
            envelope@.path.len() == 0 ==> {
                &&& sent == Err::<(), AuError>(AuError::PathError)
                &&& final(self)@ == old(self)@
                &&& final(reply_to)@ == old(reply_to)@
            },
            envelope@.path.len() > 0 ==> {
                &&& final(self)@ == handled(old(self)@, envelope@)
                &&& replied(final(self)@, envelope@, old(reply_to)@, final(reply_to)@, sent)
            },
        decreases envelope.path@.len(), 0int,
    {
        let ghost whole = envelope@;
        let AuMsg { cmd, msg, path } = envelope;
        let mut path = path;
        if path.len() == 0 {
            return Err(AuError::PathError);
        }
        proof {
            old(self).lemma_view();
        }
        let next_id = path.remove(0);
        let ghost next = next_id@;
        let place = adopt(&mut self.children, next_id);
        let fmsg = AuMsg { cmd, msg, path };
        let ghost onward = fmsg@;
        let ghost grown = self.children@;
        let sent = hand_on(&mut self.children, place, fmsg, reply_to);
        proof {
            let stop = Path::empty().push(next);
            assert(onward.path =~= whole.path.drop_first());
            assert(addressed(next, onward).path =~= whole.path);
            assert(whole.path.subrange(0, 1) =~= stop);
            lemma_touched_absorbs(family_view(old(self).children@), stop, whole.path);
            self.lemma_view();
            self.lemma_with_self(*old(self), whole, old(reply_to)@, reply_to@, sent);
        }
        sent
    }

    /// Handling an envelope that goes on to a child leaves the twin's own
    /// state alone, and the answer speaks of the same twin whether seen
    /// from here or among the children.
    proof fn lemma_with_self(
        &self,
        before: Self,
        envelope: Envelope,
        slot_before: Rendezvous,
        slot_after: Rendezvous,
        sent: Result<(), AuError>,
    )
        requires
            envelope.path.len() > 0,
            self.state == before.state,
            family_view(self.children@) == handled(family_view(before.children@), envelope),
            replied(family_view(self.children@), envelope, slot_before, slot_after, sent),
        ensures
            self@ == handled(before@, envelope),
            replied(self@, envelope, slot_before, slot_after, sent),
    {
        let p = envelope.path;
        let own = Path::empty();
        let below_before = family_view(before.children@);
        let below_after = family_view(self.children@);
        self.lemma_view();
        before.lemma_view();
        lemma_family_not_below(before.children@, own);
        lemma_family_not_below(self.children@, own);
        lemma_touched_arrives(below_before, p);
        lemma_touched_arrives(before@, p);
        assert(touched(before@, p) =~= touched(below_before, p).insert(own, before.state@));
        assert(self@ =~= handled(before@, envelope));
        if envelope.cmd == AuCmd::Ls {
            assert(children_of(self@, p) =~= children_of(below_after, p));
        }
    }
}

} // verus!
