//! The Augorama module implements the entry point to the Augorama actor system.
//!
//! Augorama hosts a graph of digital twins (Augorama actors) of real and
//! virtual things in the world. An actor can answer questions about its
//! twin's current state and about the twins below it.
//!
//! The actors maintain their state by watching telemetry collected about
//! their twins. A request names a root twin and a path below it; twins that
//! a request passes and that do not exist yet come into being on the way.

use vstd::prelude::*;

use crate::au::model::{AuCmd, AuError, AuMsg, AuTelemetry};
use crate::au::registry::TwinRegistry;
use crate::au::reply::ReplySlot;
use crate::au::twins::{
    after_each, childless, children_of, lemma_handled_from_root, lemma_lists_the_two_children, lists_names,
    lists_state, told, touched, Envelope, Path, Telemetry, Twins,
};

pub mod au;

verus! {

/// The lower case form of a path segment, as `str::to_lowercase` gives it.
pub uninterp spec fn lowercase(segment: Seq<char>) -> Seq<char>;

/// `str::to_lowercase` returns the lower case equivalent of a string slice
/// as a new `String`, by the rules of Unicode for lower case. No locale and
/// no setting of the machine comes into it: the result depends on the
/// characters of the slice alone.
pub assume_specification[ str::to_lowercase ](segment: &str) -> (lowered: String)
    ensures
        lowered@ == lowercase(segment@),
;

/// Every segment of the path names something: none is the empty string.
pub open spec fn passable(path: Path) -> bool {
    forall|i: int| 0 <= i < path.len() ==> (#[trigger] path[i]).len() > 0
}

/// The path with every segment in lower case.
pub open spec fn normal(path: Path) -> Path {
    Seq::new(path.len(), |i: int| lowercase(path[i]))
}

/// The full path of the twin that a request for `path` below the root
/// called `root` is addressed to.
pub open spec fn address(root: Seq<char>, path: Path) -> Path {
    Path::empty().push(root) + normal(path)
}

/// Why a request is turned away before anything is dispatched: it carries
/// another command than the one that this kind of request serves, or its
/// root or a segment of its path is the empty string.
pub open spec fn refusal(cmd: AuCmd, served: AuCmd, root: Seq<char>, path: Path) -> Option<
    AuError,
> {
    if cmd != served {
        Some(AuError::UnknownOperation)
    } else if root.len() == 0 || !passable(path) {
        Some(AuError::PathError)
    } else {
        None
    }
}

/// The records that a request to tell carries: none where it carries no
/// payload.
pub open spec fn told_records(data: Option<Vec<AuTelemetry>>) -> Seq<Telemetry> {
    match data {
        Some(records) => records.deep_view(),
        None => Seq::empty(),
    }
}

/// Brings a path into the form in which twins are looked up: every segment
/// in lower case. A path with an empty segment leads nowhere.
pub fn safe_path(path: Vec<String>) -> (safe: Result<Vec<String>, AuError>)
    ensures
        match safe {
            Ok(p) => passable(path.deep_view()) && p.deep_view() == normal(path.deep_view()),
            Err(e) => e == AuError::PathError && !passable(path.deep_view()),
        },
{
    let mut p: Vec<String> = Vec::new();
    let mut i: usize = 0;
    while i < path.len()
        invariant
            i <= path@.len(),
            p@.len() == i,
            forall|k: int| 0 <= k < i ==> (#[trigger] path@[k])@.len() > 0,
            forall|k: int| 0 <= k < i ==> (#[trigger] p@[k])@ == lowercase(path@[k]@),
        decreases path@.len() - i,
    {
        if path[i].as_str().is_empty() {
            proof {
                assert(path.deep_view()[i as int].len() == 0);
            }
            return Err(AuError::PathError);
        }
        p.push(path[i].as_str().to_lowercase());
        i += 1;
    }
    proof {
        assert(p.deep_view() =~= normal(path.deep_view()));
    }
    Ok(p)
}

/// Whether a request may go ahead: the path in its safe form, or the
/// reason why the request is turned away.
fn screen_request(cmd: AuCmd, served: AuCmd, root: &String, path: Vec<String>) -> (screened: Result<
    Vec<String>,
    AuError,
>)
    ensures
        match screened {
            Ok(p) => refusal(cmd, served, root@, path.deep_view()) is None && p.deep_view()
                == normal(path.deep_view()),
            Err(e) => refusal(cmd, served, root@, path.deep_view()) == Some(e),
        },
{
    if cmd != served {
        return Err(AuError::UnknownOperation);
    }
    if root.as_str().is_empty() {
        return Err(AuError::PathError);
    }
    safe_path(path)
}

/// Tells the twin at `path` below the root called `root` the records of
/// `data`. The root and every twin on the way come into being where they
/// are missing. A request that is turned away leaves the space as it was.
pub fn tell_actor(
    root: String,
    path: Vec<String>,
    op: AuCmd,
    data: Option<Vec<AuTelemetry>>,
    roots: &mut TwinRegistry,
) -> (done: Result<(), AuError>)
    requires
        old(roots).wf(),
    ensures
        final(roots).wf(),
        match refusal(op, AuCmd::Tell, root@, path.deep_view()) {
            Some(e) => done == Err::<(), AuError>(e) && *final(roots) == *old(roots),
            None => done is Ok && final(roots)@ == told(
                old(roots)@,
                address(root@, path.deep_view()),
                told_records(data),
            ),
        },
{
    let path = match screen_request(op, AuCmd::Tell, &root, path) {
        Ok(path) => path,
        Err(e) => {
            return Err(e);
        },
    };
    let ghost name = root@;
    let aumsg = AuMsg { cmd: op, msg: data, path };
    let actor = roots.get_or_create_root(root);
    let mut nobody = ReplySlot::new(0);
    proof {
        lemma_handled_from_root(old(roots)@, name, aumsg@);
    }
    roots.dispatch(actor, aumsg, &mut nobody)
}

/// Asks the twin at `path` below the root called `root` for its state and
/// waits for the answer no longer than `deadline`, of which `waited` has
/// passed when the question reaches the twins. The root and every twin on
/// the way come into being where they are missing, whether the answer
/// comes in time or not.
pub fn ask_actor(
    root: String,
    path: Vec<String>,
    cmd: AuCmd,
    roots: &mut TwinRegistry,
    deadline: u64,
    waited: u64,
) -> (answer: Result<Vec<AuTelemetry>, AuError>)
    requires
        old(roots).wf(),
    ensures
        final(roots).wf(),
        match refusal(cmd, AuCmd::Get, root@, path.deep_view()) {
            Some(e) => answer == Err::<Vec<AuTelemetry>, AuError>(e) && *final(roots) == *old(
                roots,
            ),
            None => {
                &&& final(roots)@ == touched(old(roots)@, address(root@, path.deep_view()))
                &&& if waited > deadline {
                    answer == Err::<Vec<AuTelemetry>, AuError>(AuError::Timeout)
                } else {
                    answer matches Ok(records) && lists_state(
                        records.deep_view(),
                        final(roots)@[address(root@, path.deep_view())],
                    )
                }
            },
        },
{
    let path = match screen_request(cmd, AuCmd::Get, &root, path) {
        Ok(path) => path,
        Err(e) => {
            return Err(e);
        },
    };
    let ghost name = root@;
    let aumsg = AuMsg { cmd, msg: None, path };
    let actor = roots.get_or_create_root(root);
    let mut slot = ReplySlot::new(deadline);
    slot.advance(waited);
    proof {
        lemma_handled_from_root(old(roots)@, name, aumsg@);
    }
    match roots.dispatch(actor, aumsg, &mut slot) {
        Ok(_) => {},
        Err(e) => {
            return Err(e);
        },
    }
    match slot.take() {
        Ok(response) => match response.msg {
            Some(records) => Ok(records),
            None => Err(AuError::DispatchFailure),
        },
        Err(e) => Err(e),
    }
}

/// Asks the twin at `path` below the root called `root` for the names of
/// its children and waits for the answer no longer than `deadline`, of
/// which `waited` has passed when the question reaches the twins. The root
/// and every twin on the way come into being where they are missing,
/// whether the answer comes in time or not.
pub fn ls_actor(
    root: String,
    path: Vec<String>,
    cmd: AuCmd,
    roots: &mut TwinRegistry,
    deadline: u64,
    waited: u64,
) -> (answer: Result<Vec<String>, AuError>)
    requires
        old(roots).wf(),
    ensures
        final(roots).wf(),
        match refusal(cmd, AuCmd::Ls, root@, path.deep_view()) {
            Some(e) => answer == Err::<Vec<String>, AuError>(e) && *final(roots) == *old(roots),
            None => {
                &&& final(roots)@ == touched(old(roots)@, address(root@, path.deep_view()))
                &&& if waited > deadline {
                    answer == Err::<Vec<String>, AuError>(AuError::Timeout)
                } else {
                    answer matches Ok(names) && lists_names(
                        names.deep_view(),
                        children_of(final(roots)@, address(root@, path.deep_view())),
                    )
                }
            },
        },
{
    let path = match screen_request(cmd, AuCmd::Ls, &root, path) {
        Ok(path) => path,
        Err(e) => {
            return Err(e);
        },
    };
    let ghost name = root@;
    let aumsg = AuMsg { cmd, msg: None, path };
    let actor = roots.get_or_create_root(root);
    let mut slot = ReplySlot::new(deadline);
    slot.advance(waited);
    proof {
        lemma_handled_from_root(old(roots)@, name, aumsg@);
    }
    match roots.dispatch(actor, aumsg, &mut slot) {
        Ok(_) => {},
        Err(e) => {
            return Err(e);
        },
    }
    match slot.take() {
        Ok(response) => Ok(response.path),
        Err(e) => Err(e),
    }
}

/// The list of a twin's children shows what the requests before it have
/// brought into being. After requests of any kind to two children of the
/// twin at `path` below `root`, each of the two addressed at least once, in
/// whatever order and however often, a list of the children of that twin,
/// which had none before, holds the lower case names of the two, each
/// once, and nothing else. Names that differ in case alone are one child.
pub proof fn lemma_ls_shows_both_children(
    twins: Twins,
    root: Seq<char>,
    path: Path,
    one: Seq<char>,
    other: Seq<char>,
    requests: Seq<Envelope>,
    names: Seq<Seq<char>>,
)
    requires
        lowercase(one) != lowercase(other),
        childless(twins, address(root, path)),
        forall|i: int|
            0 <= i < requests.len() ==> (#[trigger] requests[i]).path == address(
                root,
                path.push(one),
            ) || requests[i].path == address(root, path.push(other)),
        exists|i: int|
            0 <= i < requests.len() && (#[trigger] requests[i]).path == address(
                root,
                path.push(one),
            ),
        exists|i: int|
            0 <= i < requests.len() && (#[trigger] requests[i]).path == address(
                root,
                path.push(other),
            ),
        lists_names(
            names,
            children_of(
                touched(after_each(twins, requests), address(root, path)),
                address(root, path),
            ),
        ),
    ensures
        names == Seq::empty().push(lowercase(one)).push(lowercase(other)) || names
            == Seq::empty().push(lowercase(other)).push(lowercase(one)),
{
    let parent = address(root, path);
    assert(address(root, path.push(one)) =~= parent.push(lowercase(one)));
    assert(address(root, path.push(other)) =~= parent.push(lowercase(other)));
    lemma_lists_the_two_children(
        twins,
        parent,
        lowercase(one),
        lowercase(other),
        requests,
        names,
    );
}

} // verus!
