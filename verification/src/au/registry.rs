//! The roots of a twin space: the twins that paths begin with.

use vstd::prelude::*;

use crate::au::actor::{
    adopt, family_view, family_wf, hand_on, has_twin, lemma_family_empty, lemma_family_facts,
    lemma_family_has, lemma_family_not_below, names_of, AugieActor,
};
use crate::au::model::{AuError, AuMsg, AuTelemetry};
use crate::au::reply::ReplySlot;
use crate::au::twins::{
    addressed, children_of, handled, lists_names, replied, touched, Path, State, Twins,
};

verus! {

/// Keeps the root twins of a space, each under its name. Roots come into
/// being when they are first asked for and stay for good; the place that a
/// root was given at that moment is the handle by which it is reached.
#[derive(Debug)]
pub struct TwinRegistry {
    roots: Vec<AugieActor>,
}

impl View for TwinRegistry {
    type V = Twins;

    /// Every twin of the space under its full path, which begins with the
    /// name of its root.
    closed spec fn view(&self) -> Twins {
        family_view(self.roots@)
    }
}

impl TwinRegistry {
    /// No two roots go by the same name, and each root is well-formed.
    pub closed spec fn wf(&self) -> bool {
        family_wf(self.roots@)
    }

    /// How many roots there are.
    pub closed spec fn spec_len(&self) -> nat {
        self.roots@.len()
    }

    /// The name of the root that `handle` stands for.
    pub closed spec fn root_name(&self, handle: int) -> Seq<char> {
        self.roots@[handle].spec_name()
    }

    /// There is one root of each name at most, and the names of the roots
    /// are the one-name paths of the space.
    pub proof fn lemma_roots(&self)
        requires
            self.wf(),
        ensures
            forall|a: int, b: int|
                0 <= a < self.spec_len() && 0 <= b < self.spec_len() && self.root_name(a)
                    == self.root_name(b) ==> a == b,
            forall|h: int|
                0 <= h < self.spec_len() ==> #[trigger] self@.contains_key(
                    Path::empty().push(self.root_name(h)),
                ),
            forall|name: Seq<char>| #[trigger]
                self@.contains_key(Path::empty().push(name)) ==> exists|h: int|
                    0 <= h < self.spec_len() && self.root_name(h) == name,
            !self@.contains_key(Path::empty()),
    {
        lemma_family_facts(self.roots@);
        assert forall|h: int| 0 <= h < self.spec_len() implies #[trigger] self@.contains_key(
            Path::empty().push(self.root_name(h)),
        ) by {
            lemma_family_has(self.roots@, self.root_name(h));
        }
        assert forall|name: Seq<char>| #[trigger]
            self@.contains_key(Path::empty().push(name)) implies exists|h: int|
            0 <= h < self.spec_len() && self.root_name(h) == name by {
            lemma_family_has(self.roots@, name);
            let h = choose|h: int|
                0 <= h < self.roots@.len() && #[trigger] self.roots@[h].spec_name() == name;
            assert(self.root_name(h) == name);
        }
        lemma_family_not_below(self.roots@, Path::empty());
    }

    /// Whoever asks for the root of a name, and however often, is given the
    /// one handle: a handle that stood for the name before roots joined
    /// and a handle that stands for it afterwards are the same.
    pub proof fn lemma_one_root_per_name(&self, later: &TwinRegistry, first: int, second: int)
        requires
            self.wf(),
            later.wf(),
            self.spec_len() <= later.spec_len(),
            forall|h: int|
                0 <= h < self.spec_len() ==> #[trigger] later.root_name(h) == self.root_name(h),
            0 <= first < self.spec_len(),
            0 <= second < later.spec_len(),
            later.root_name(second) == self.root_name(first),
        ensures
            second == first,
    {
        later.lemma_roots();
        assert(later.root_name(first) == self.root_name(first));
    }

    /// A registry without roots.
    pub fn new() -> (registry: Self)
        ensures
            registry.wf(),
            registry.spec_len() == 0,
            registry@ == Map::<Path, State>::empty(),
    {
        let registry = TwinRegistry { roots: Vec::new() };
        proof {
            lemma_family_empty(registry.roots@);
        }
        registry
    }

    /// The handle of the root called `name`. Where there is no such root, a
    /// new twin of that name, with nothing in its state and no children,
    /// becomes a root first. Looking and creating are one step, so that no
    /// name ever gets a second root.
    pub fn get_or_create_root(&mut self, name: String) -> (handle: usize)
        requires
            old(self).wf(),
        ensures
            final(self).wf(),
            handle < final(self).spec_len(),
            final(self).root_name(handle as int) == name@,
            final(self)@ == touched(old(self)@, Path::empty().push(name@)),
            old(self)@.contains_key(Path::empty().push(name@)) ==> *final(self) == *old(self),
            !old(self)@.contains_key(Path::empty().push(name@)) ==> {
                &&& handle == old(self).spec_len()
                &&& final(self).spec_len() == old(self).spec_len() + 1
            },
            forall|h: int|
                0 <= h < old(self).spec_len() ==> #[trigger] final(self).root_name(h) == old(
                    self,
                ).root_name(h),
    {
        proof {
            lemma_family_has(self.roots@, name@);
        }
        let handle = adopt(&mut self.roots, name);
        proof {
            if !has_twin(old(self).roots@, name@) {
                assert forall|h: int| 0 <= h < old(self).spec_len() implies self.roots@[h] == old(
                    self,
                ).roots@[h] by {
                    assert(self.roots@.drop_last()[h] == self.roots@[h]);
                }
            }
        }
        handle
    }

    /// Hands `envelope` to the root that `root` stands for, which routes it
    /// on; the twin that handles it answers to `reply_to`.
    pub fn dispatch(
        &mut self,
        root: usize,
        envelope: AuMsg<Vec<AuTelemetry>>,
        reply_to: &mut ReplySlot,
    ) -> (sent: Result<(), AuError>)
        requires
            old(self).wf(),
            root < old(self).spec_len(),
        ensures
            final(self).wf(),
            final(self).spec_len() == old(self).spec_len(),
            forall|h: int|
                0 <= h < old(self).spec_len() ==> #[trigger] final(self).root_name(h) == old(
                    self,
                ).root_name(h),
            final(self)@ == handled(
                old(self)@,
                addressed(old(self).root_name(root as int), envelope@),
            ),
            replied(
                final(self)@,
                addressed(old(self).root_name(root as int), envelope@),
                old(reply_to)@,
                final(reply_to)@,
                sent,
            ),
    {
        hand_on(&mut self.roots, root, envelope, reply_to)
    }

    /// How many roots there are: the handles are the numbers below it.
    pub fn len(&self) -> (n: usize)
        ensures
            n == self.spec_len(),
    {
        self.roots.len()
    }

    /// The names of the roots.
    pub fn list_root_names(&self) -> (names: Vec<String>)
        requires
            self.wf(),
        ensures
            lists_names(names.deep_view(), children_of(self@, Path::empty())),
    {
        names_of(&self.roots)
    }
}

} // verus!
