//! The deployment engine: deploy, rollback and garbage collection as one
//! ordering-preserving protocol. A deploy is planned as a pure value
//! transition plus a fixed sequence of filesystem steps — copy the source
//! into its hidden slot, clear the target name, point the symlink, drop the
//! evicted hidden copies, persist the state — and the plan is applied to
//! the filesystem model under proof. An outer layer may replay the same
//! plan, step for step, against a real filesystem.

use vstd::prelude::*;

use crate::codec::ancestor_doc_of;
use crate::codec::canonical_ancestor_doc;
use crate::codec::canonical_doc_v1;
use crate::codec::dump_state;
use crate::codec::load_from_bytes;
use crate::codec::same_state;
use crate::codec::state_doc_bytes;
use crate::errors::Error;
use crate::fsmodel::EntryModel;
use crate::fsmodel::FsModel;
use crate::paths::copy_bytes;
use crate::paths::get_hidden_target;
use crate::paths::get_state_path;
use crate::paths::hidden_path_of;
use crate::paths::state_path_of;
use crate::paths::valid_target;
use crate::state::DeploymentRecord;
use crate::state::MAX_VERSIONS_TO_KEEP;
use crate::state::TargetState;
use crate::state::ids_after_deploy;
use crate::time::TS_MAX;
use crate::wall_clock::WallClock;

verus! {

/// The id the next deployment of `s` will get, as a machine integer.
pub open spec fn next_id_u32(s: TargetState) -> u32 {
    s.next_id_spec() as u32
}

/// How many of the oldest records one more deployment evicts.
pub open spec fn evict_count(s: TargetState) -> int {
    if s.ids().len() + 1 <= MAX_VERSIONS_TO_KEEP {
        0
    } else {
        s.ids().len() + 1 - MAX_VERSIONS_TO_KEEP
    }
}

/// The state file of `target` holds the canonical document — current or
/// ancestor schema — that loads as `s`.
pub open spec fn persisted_canonical(fs: FsModel, target: Seq<u8>, s: TargetState) -> bool {
    &&& s.wf()
    &&& s.target@ == target
    &&& ((canonical_doc_v1(state_doc_bytes(s), s) && fs.contents(state_path_of(target))
        == Option::Some(state_doc_bytes(s))) || (canonical_ancestor_doc(ancestor_doc_of(s), s)
        && fs.contents(state_path_of(target)) == Option::Some(ancestor_doc_of(s))))
}

/// Loads the state for `target` from its sidecar file: a fresh state when
/// no file can be read, the parsed and upgraded state when one can, and
/// `StateCorrupt` when the file's bytes are not a well-formed document for
/// `target`.
pub fn load_state(fs: &FsModel, target: &Vec<u8>) -> (r: Result<TargetState, Error>)
    requires
        valid_target(target@),
    ensures
        r matches Ok(s) ==> s.wf() && s.target@ == target@,
        fs.contents(state_path_of(target@)) is None ==> (r matches Ok(s) && s.deployments@.len()
            == 0 && s.current is None),
        forall|s: TargetState|
            #![trigger persisted_canonical(*fs, target@, s)]
            persisted_canonical(*fs, target@, s) ==> (
            r is Ok && same_state(r.unwrap(), s)),
        r is Err ==> r == Result::<TargetState, Error>::Err(Error::StateCorrupt)
            && fs.contents(state_path_of(target@)) is Some,
        fs.contents(state_path_of(target@)) matches Some(b) ==> (r matches Ok(s)
            ==> crate::codec::loadable_doc(b, s)),
{
    let sp = get_state_path(target);
    match fs.read_file(&sp) {
        Option::Some(bytes) => load_from_bytes(&bytes, target),
        Option::None => Result::Ok(TargetState::new(copy_bytes(target))),
    }
}

/// One planned deployment: the value transition already taken, and the
/// filesystem steps still to be applied, in their fixed order.
pub struct DeployPlan {
    /// Where the binary is copied from.
    pub source: Vec<u8>,
    /// The hidden slot the binary is copied to, named after the new id.
    pub hidden: Vec<u8>,
    /// The stable path whose symlink is repointed.
    pub target_path: Vec<u8>,
    /// Hidden copies of evicted deployments, newest first, to delete.
    pub evict: Vec<Vec<u8>>,
    /// The sidecar state file's path.
    pub state_path: Vec<u8>,
    /// The bytes to persist there: the canonical document of `new_state`.
    pub state_bytes: Vec<u8>,
    /// The state after this deployment.
    pub new_state: TargetState,
}

/// Plans one deployment of `exe` over `state`: computes the next id, takes
/// the value transition (append the record, make it current, collect
/// garbage), and derives every path and the bytes to persist. Fails exactly
/// when the id space is exhausted.
pub fn plan_deploy(
    state: TargetState,
    exe: &Vec<u8>,
    now: i64,
    message: Vec<u8>,
    original_id: Option<u32>,
) -> (r: Result<DeployPlan, Error>)
    requires
        state.wf(),
        valid_target(state.target@),
        0 <= now < TS_MAX,
    ensures
        r is Err <==> !state.can_deploy(),
        r is Err ==> r == Result::<DeployPlan, Error>::Err(Error::IdSpaceExhausted),
        r matches Ok(p) ==> {
            let nid = next_id_u32(state);
            let rec = (DeploymentRecord {
                time: now,
                message,
                original_id: if original_id is Some {
                    original_id.unwrap()
                } else {
                    nid
                },
            });
            &&& p.source@ == exe@
            &&& p.target_path@ == state.target@
            &&& p.hidden@ == hidden_path_of(state.target@, nid as nat)
            &&& p.state_path@ == state_path_of(state.target@)
            &&& p.new_state.wf()
            &&& p.new_state.current_is_newest()
            &&& p.new_state.target == state.target
            &&& p.new_state.current == Option::Some(nid)
            &&& p.new_state.ids() == ids_after_deploy(state.ids(), nid)
            &&& p.new_state.deployments@ == state.deployments@.push((nid, rec)).skip(
                evict_count(state),
            )
            &&& p.new_state.deployments@.len() <= MAX_VERSIONS_TO_KEEP
            &&& p.evict@.len() == evict_count(state)
            &&& (forall|k: int|
                0 <= k < p.evict@.len() ==> (#[trigger] p.evict@[k])@ == hidden_path_of(
                    state.target@,
                    state.ids()[evict_count(state) - 1 - k] as nat,
                ))
            &&& p.state_bytes@ == state_doc_bytes(p.new_state)
            &&& canonical_doc_v1(p.state_bytes@, p.new_state)
        },
{
    if !state.check_can_deploy() {
        return Result::Err(Error::IdSpaceExhausted);
    }
    let nid = state.next_deployment();
    let ghost old_ids = state.ids();
    let hidden = get_hidden_target(&state.target, nid);
    let source = copy_bytes(exe);
    let mut st = state.add_deployment(nid, now, message, original_id);
    let evicted = st.garbage_collect();
    proof {
        assert(st.ids() =~= ids_after_deploy(old_ids, nid));
        assert(evicted@.len() == evict_count(state)) by {
            assert(evicted@.len() + st.deployments@.len() == old_ids.len() + 1);
        }
        assert forall|k: int|
            0 <= k < evicted@.len() implies evicted@[k] == old_ids[evicted@.len() - 1 - k] by {
            assert(old_ids.push(nid)[evicted@.len() - 1 - k] == old_ids[evicted@.len() - 1 - k]);
        }
    }
    let target_path = copy_bytes(&st.target);
    let state_path = get_state_path(&st.target);
    let state_bytes = dump_state(&st);
    let mut evict: Vec<Vec<u8>> = Vec::new();
    let mut k: usize = 0;
    while k < evicted.len()
        invariant
            0 <= k <= evicted@.len(),
            evict@.len() == k,
            valid_target(st.target@),
            st.target == state.target,
            forall|q: int|
                0 <= q < k ==> (#[trigger] evict@[q])@ == hidden_path_of(
                    st.target@,
                    evicted@[q] as nat,
                ),
        decreases evicted@.len() - k,
    {
        let p = get_hidden_target(&st.target, evicted[k]);
        evict.push(p);
        k = k + 1;
    }
    Result::Ok(
        DeployPlan {
            source,
            hidden,
            target_path,
            evict,
            state_path,
            state_bytes,
            new_state: st,
        },
    )
}

/// Picks the deployment a rollback restores: the given id when one is
/// given (it must still be retained), else the second-most-recent one.
/// Fails exactly when the given id is unknown, or when none is given and
/// fewer than two deployments exist.
pub fn select_rollback_id(state: &TargetState, rollback_id: Option<u32>) -> (r: Result<u32, Error>)
    ensures
        rollback_id is None && state.deployments@.len() < 2 ==> r == Result::<u32, Error>::Err(
            Error::NothingToRollBack,
        ),
        rollback_id is Some && !state.has_id(rollback_id.unwrap()) ==> r == Result::<
            u32,
            Error,
        >::Err(Error::UnknownRollbackId(rollback_id.unwrap())),
        r matches Ok(rid) ==> {
            &&& state.has_id(rid)
            &&& (rollback_id matches Some(o) ==> rid == o)
            &&& (rollback_id is None ==> state.deployments@.len() >= 2 && rid == state.ids()[state.ids().len() - 2])
        },
        r is Err <==> (rollback_id is None && state.deployments@.len() < 2) || (rollback_id
            matches Some(o) && !state.has_id(o)),
{
    match rollback_id {
        Option::Some(o) => {
            match state.find_index(o) {
                Option::Some(_) => Result::Ok(o),
                Option::None => Result::Err(Error::UnknownRollbackId(o)),
            }
        },
        Option::None => {
            if state.deployments.len() < 2 {
                return Result::Err(Error::NothingToRollBack);
            }
            let ordered = state.order_ids();
            let rid = ordered[1];
            proof {
                assert(rid == state.ids()[state.ids().len() - 2]);
            }
            Result::Ok(rid)
        },
    }
}

/// Plans a rollback: selects the restored id and plans a fresh deployment
/// whose source is that id's hidden copy and whose record points back at
/// it.
pub fn plan_rollback(
    state: TargetState,
    rollback_id: Option<u32>,
    now: i64,
    message: Vec<u8>,
) -> (r: Result<DeployPlan, Error>)
    requires
        state.wf(),
        valid_target(state.target@),
        0 <= now < TS_MAX,
    ensures
        rollback_id is None && state.deployments@.len() < 2 ==> r == Result::<
            DeployPlan,
            Error,
        >::Err(Error::NothingToRollBack),
        rollback_id is Some && !state.has_id(rollback_id.unwrap()) ==> r == Result::<
            DeployPlan,
            Error,
        >::Err(Error::UnknownRollbackId(rollback_id.unwrap())),
        r is Err <==> ((rollback_id is None && state.deployments@.len() < 2) || (rollback_id
            is Some && !state.has_id(rollback_id.unwrap())) || !state.can_deploy()),
        !(rollback_id is None && state.deployments@.len() < 2) && !(rollback_id is Some
            && !state.has_id(rollback_id.unwrap())) && !state.can_deploy() ==> r == Result::<
            DeployPlan,
            Error,
        >::Err(Error::IdSpaceExhausted),
        r matches Ok(p) ==> {
            let nid = next_id_u32(state);
            &&& p.target_path@ == state.target@
            &&& p.hidden@ == hidden_path_of(state.target@, nid as nat)
            &&& p.state_path@ == state_path_of(state.target@)
            &&& p.new_state.wf()
            &&& p.new_state.current_is_newest()
            &&& p.new_state.target == state.target
            &&& p.new_state.current == Option::Some(nid)
            &&& p.new_state.ids() == ids_after_deploy(state.ids(), nid)
            &&& p.new_state.deployments@.len() <= MAX_VERSIONS_TO_KEEP
            &&& p.state_bytes@ == state_doc_bytes(p.new_state)
            &&& canonical_doc_v1(p.state_bytes@, p.new_state)
            &&& p.new_state.deployments@.last().1.message@ == message@
            &&& state.has_id(p.new_state.deployments@.last().1.original_id)
            &&& p.source@ == hidden_path_of(
                state.target@,
                p.new_state.deployments@.last().1.original_id as nat,
            )
            &&& (rollback_id matches Some(o) ==> p.new_state.deployments@.last().1.original_id
                == o)
            &&& (rollback_id is None ==> p.new_state.deployments@.last().1.original_id
                == state.ids()[state.ids().len() - 2])
        },
{
    let rid: u32;
    match select_rollback_id(&state, rollback_id) {
        Result::Ok(x) => {
            rid = x;
        },
        Result::Err(e) => {
            return Result::Err(e);
        },
    }
    let source = get_hidden_target(&state.target, rid);
    let ghost st0 = state;
    let r = plan_deploy(state, &source, now, message, Option::Some(rid));
    proof {
        if r is Ok {
            let p = r.unwrap();
            assert(p.new_state.deployments@.last().1.original_id == rid);
        }
    }
    r
}

/// Applies a deployment plan to the filesystem, in the protocol's fixed
/// order: copy the source into its hidden slot first, only then clear the
/// target name and point the symlink at the slot, then drop the evicted
/// hidden copies, and persist the state last. Fails — with the filesystem
/// untouched — exactly when the source cannot be read.
///
/// Cleanup policy: an evicted hidden copy that is already gone is
/// tolerated; in this model removal itself always succeeds, and an outer
/// layer that cannot remove a copy that does exist surfaces that as an I/O
/// error and aborts the deploy.
pub fn apply_deploy(fs: &mut FsModel, plan: &DeployPlan) -> (r: Result<(), Error>)
    requires
        plan.hidden@ != plan.target_path@,
        plan.hidden@ != plan.state_path@,
        plan.state_path@ != plan.target_path@,
        forall|k: int|
            0 <= k < plan.evict@.len() ==> (#[trigger] plan.evict@[k])@ != plan.hidden@
                && plan.evict@[k]@ != plan.target_path@ && plan.evict@[k]@ != plan.state_path@,
    ensures
        r is Ok <==> old(fs).contents(plan.source@) is Some,
        r is Err ==> r == Result::<(), Error>::Err(Error::SourceUnreadable) && (forall|q: Seq<u8>|
            final(fs).at(q) == old(fs).at(q)),
        r is Ok ==> {
            &&& final(fs).at(plan.target_path@) == EntryModel::LinkM(plan.hidden@)
            &&& final(fs).at(plan.hidden@) == EntryModel::FileM(
                old(fs).contents(plan.source@).unwrap(),
            )
            &&& final(fs).contents(plan.target_path@) == old(fs).contents(plan.source@)
            &&& final(fs).at(plan.state_path@) == EntryModel::FileM(plan.state_bytes@)
            &&& (forall|k: int|
                0 <= k < plan.evict@.len() ==> final(fs).at(
                    (#[trigger] plan.evict@[k])@,
                ) is AbsentM)
            &&& (forall|q: Seq<u8>|
                q != plan.target_path@ && q != plan.hidden@ && q != plan.state_path@ && (forall|
                    k: int,
                |
                    0 <= k < plan.evict@.len() ==> q != (#[trigger] plan.evict@[k])@)
                    ==> final(fs).at(q) == old(fs).at(q))
        },
{
    let contents: Vec<u8>;
    match fs.read_file(&plan.source) {
        Option::Some(c) => {
            contents = c;
        },
        Option::None => {
            return Result::Err(Error::SourceUnreadable);
        },
    }
    fs.write_file(copy_bytes(&plan.hidden), contents);
    if fs.occupied(&plan.target_path) {
        fs.remove(copy_bytes(&plan.target_path));
    }
    fs.symlink(copy_bytes(&plan.target_path), copy_bytes(&plan.hidden));
    let ghost mid = *fs;
    let n = plan.evict.len();
    let mut k: usize = 0;
    while k < n
        invariant
            0 <= k <= n,
            n == plan.evict@.len(),
            forall|j: int| 0 <= j < k ==> fs.at((#[trigger] plan.evict@[j])@) is AbsentM,
            forall|q: Seq<u8>|
                (forall|j: int| 0 <= j < k ==> q != (#[trigger] plan.evict@[j])@) ==> fs.at(q)
                    == mid.at(q),
        decreases n - k,
    {
        fs.remove(copy_bytes(&plan.evict[k]));
        proof {
            assert forall|j: int| 0 <= j < k + 1 implies fs.at(
                (#[trigger] plan.evict@[j])@,
            ) is AbsentM by {
                if j < k && plan.evict@[j]@ != plan.evict@[k as int]@ {
                    assert(fs.at(plan.evict@[j]@) is AbsentM);
                }
            }
        }
        k = k + 1;
    }
    fs.write_file(copy_bytes(&plan.state_path), copy_bytes(&plan.state_bytes));
    proof {
        assert(final(fs).at(plan.target_path@) == EntryModel::LinkM(plan.hidden@));
        assert(final(fs).at(plan.hidden@) == EntryModel::FileM(
            old(fs).contents(plan.source@).unwrap(),
        ));
        assert(final(fs).contents(plan.target_path@) == old(fs).contents(plan.source@));
    }
    Result::Ok(())
}

/// Deploys `exe` over the given in-memory state: plans the transition and
/// applies it. On success the target symlink reads byte for byte as the
/// source did, the new record is current, at most `MAX_VERSIONS_TO_KEEP`
/// records remain, the evicted deployments' hidden copies are gone from
/// disk, and the state file holds the canonical document of the returned
/// state. On any failure the filesystem is untouched.
pub fn deploy_with_state(
    fs: &mut FsModel,
    state: TargetState,
    exe: &Vec<u8>,
    now: i64,
    message: Vec<u8>,
    original_id: Option<u32>,
) -> (r: Result<TargetState, Error>)
    requires
        state.wf(),
        valid_target(state.target@),
        0 <= now < TS_MAX,
    ensures
        r is Err ==> forall|q: Seq<u8>| final(fs).at(q) == old(fs).at(q),
        r is Err <==> !state.can_deploy() || old(fs).contents(exe@) is None,
        !state.can_deploy() ==> r == Result::<TargetState, Error>::Err(Error::IdSpaceExhausted),
        state.can_deploy() && old(fs).contents(exe@) is None ==> r == Result::<
            TargetState,
            Error,
        >::Err(Error::SourceUnreadable),
        r matches Ok(st) ==> {
            let nid = next_id_u32(state);
            &&& st.wf()
            &&& st.current_is_newest()
            &&& st.target == state.target
            &&& st.current == Option::Some(nid)
            &&& st.ids() == ids_after_deploy(state.ids(), nid)
            &&& st.deployments@ == state.deployments@.push(
                (
                    nid,
                    (DeploymentRecord {
                        time: now,
                        message,
                        original_id: if original_id is Some {
                            original_id.unwrap()
                        } else {
                            nid
                        },
                    }),
                ),
            ).skip(evict_count(state))
            &&& st.deployments@.len() <= MAX_VERSIONS_TO_KEEP
            &&& final(fs).contents(state.target@) == old(fs).contents(exe@)
            &&& final(fs).at(state.target@) == EntryModel::LinkM(
                hidden_path_of(state.target@, nid as nat),
            )
            &&& final(fs).at(hidden_path_of(state.target@, nid as nat)) == EntryModel::FileM(
                old(fs).contents(exe@).unwrap(),
            )
            &&& final(fs).at(state_path_of(state.target@)) == EntryModel::FileM(
                state_doc_bytes(st),
            )
            &&& canonical_doc_v1(state_doc_bytes(st), st)
            &&& (forall|k: int|
                0 <= k < evict_count(state) ==> final(fs).at(
                    hidden_path_of(state.target@, (#[trigger] state.ids()[k]) as nat),
                ) is AbsentM)
            &&& (forall|q: Seq<u8>|
                q != state.target@ && q != hidden_path_of(state.target@, nid as nat) && q
                    != state_path_of(state.target@) && (forall|k: int|
                    0 <= k < evict_count(state) ==> q != hidden_path_of(
                        state.target@,
                        (#[trigger] state.ids()[k]) as nat,
                    )) ==> final(fs).at(q) == old(fs).at(q))
        },
{
    let ghost st0 = state;
    let plan: DeployPlan;
    match plan_deploy(state, exe, now, message, original_id) {
        Result::Ok(p) => {
            plan = p;
        },
        Result::Err(e) => {
            return Result::Err(e);
        },
    }
    proof {
        let nid = next_id_u32(st0);
        crate::paths::lemma_hidden_ne_target(st0.target@, nid as nat);
        crate::paths::lemma_state_ne_target(st0.target@);
        crate::paths::lemma_hidden_ne_state(st0.target@, nid);
        assert forall|k: int|
            0 <= k < plan.evict@.len() implies (#[trigger] plan.evict@[k])@ != plan.hidden@
            && plan.evict@[k]@ != plan.target_path@ && plan.evict@[k]@ != plan.state_path@ by {
            let j = evict_count(st0) - 1 - k;
            let eid = st0.ids()[j];
            crate::paths::lemma_hidden_ne_target(st0.target@, eid as nat);
            crate::paths::lemma_hidden_ne_state(st0.target@, eid);
            assert(eid < nid) by {
                assert(st0.ids().len() > 0);
                if j < st0.ids().len() - 1 {
                    assert(st0.ids()[j] < st0.ids()[st0.ids().len() - 1]);
                }
            }
            if plan.evict@[k]@ == plan.hidden@ {
                crate::paths::lemma_hidden_injective(st0.target@, eid, nid);
            }
        }
    }
    match apply_deploy(fs, &plan) {
        Result::Ok(_) => {},
        Result::Err(e) => {
            return Result::Err(e);
        },
    }
    proof {
        assert forall|q: Seq<u8>|
            q != st0.target@ && q != hidden_path_of(st0.target@, next_id_u32(st0) as nat) && q
                != state_path_of(st0.target@) && (forall|k: int|
                0 <= k < evict_count(st0) ==> q != hidden_path_of(
                    st0.target@,
                    (#[trigger] st0.ids()[k]) as nat,
                )) implies final(fs).at(q) == old(fs).at(q) by {
            assert forall|k: int|
                0 <= k < plan.evict@.len() implies q != (#[trigger] plan.evict@[k])@ by {
                let j = evict_count(st0) - 1 - k;
                assert(plan.evict@[k]@ == hidden_path_of(st0.target@, st0.ids()[j] as nat));
            }
        }
        assert forall|k: int|
            0 <= k < evict_count(st0) implies final(fs).at(
            hidden_path_of(st0.target@, (#[trigger] st0.ids()[k]) as nat),
        ) is AbsentM by {
            let j = evict_count(st0) - 1 - k;
            assert(plan.evict@[j]@ == hidden_path_of(st0.target@, st0.ids()[k] as nat));
            assert(final(fs).at(plan.evict@[j]@) is AbsentM);
        }
    }
    Result::Ok(plan.new_state)
}

/// One deployment step over the prior state `s`: what a successful deploy
/// guarantees of the returned state `st` and of the filesystem, `pre` the
/// filesystem before and `post` after. The new record gets the fresh id
/// `next_id_u32(s)` and becomes current; the retained prior records carry
/// over unchanged (history is append-only up to the retention window); the
/// target symlink points at the fresh id's hidden copy, which holds the
/// source's bytes; the evicted ids' hidden copies are gone; the state file
/// holds the canonical document of `st`; every other path is untouched.
pub open spec fn deploy_step(
    s: TargetState,
    st: TargetState,
    pre: FsModel,
    post: FsModel,
    exe: Seq<u8>,
    target: Seq<u8>,
    message: Seq<u8>,
) -> bool {
    let nid = next_id_u32(s);
    let cut = evict_count(s);
    &&& st.ids() == ids_after_deploy(s.ids(), nid)
    &&& st.current == Option::Some(nid)
    &&& st.deployments@.len() == s.deployments@.len() + 1 - cut
    &&& (forall|k: int|
        0 <= k < st.deployments@.len() - 1 ==> (#[trigger] st.deployments@[k]).0
            == s.deployments@[k + cut].0 && st.deployments@[k].1.time == s.deployments@[k
            + cut].1.time && st.deployments@[k].1.message@ == s.deployments@[k + cut].1.message@
            && st.deployments@[k].1.original_id == s.deployments@[k + cut].1.original_id)
    &&& st.deployments@.last().0 == nid
    &&& st.deployments@.last().1.message@ == message
    &&& post.at(target) == EntryModel::LinkM(hidden_path_of(target, nid as nat))
    &&& post.at(hidden_path_of(target, nid as nat)) == EntryModel::FileM(
        pre.contents(exe).unwrap(),
    )
    &&& post.contents(target) == pre.contents(exe)
    &&& post.at(state_path_of(target)) == EntryModel::FileM(state_doc_bytes(st))
    &&& (forall|k: int|
        0 <= k < cut ==> post.at(
            hidden_path_of(target, (#[trigger] s.ids()[k]) as nat),
        ) is AbsentM)
    &&& (forall|q: Seq<u8>|
        q != target && q != hidden_path_of(target, nid as nat) && q != state_path_of(target) && (
        forall|k: int| 0 <= k < cut ==> q != hidden_path_of(target, (#[trigger] s.ids()[k]) as nat))
            ==> post.at(q) == pre.at(q))
}

/// Deploys `exe` to `target`: loads the state from the sidecar file (a
/// fresh one if none exists), stamps the current time, and runs the deploy
/// protocol, which also persists the updated state. Returns the updated,
/// persisted state; on any failure the filesystem is untouched.
pub fn deploy_internal<C: WallClock>(
    fs: &mut FsModel,
    exe: &Vec<u8>,
    target: &Vec<u8>,
    clock: &C,
    message: Vec<u8>,
    original_id: Option<u32>,
) -> (r: Result<TargetState, Error>)
    requires
        valid_target(target@),
    ensures
        r is Err ==> forall|q: Seq<u8>| final(fs).at(q) == old(fs).at(q),
        r matches Ok(st) ==> {
            &&& st.wf()
            &&& st.current_is_newest()
            &&& st.target@ == target@
            &&& st.deployments@.len() >= 1
            &&& st.deployments@.len() <= MAX_VERSIONS_TO_KEEP
            &&& old(fs).contents(exe@) is Some
            &&& final(fs).contents(target@) == old(fs).contents(exe@)
            &&& final(fs).at(state_path_of(target@)) == EntryModel::FileM(state_doc_bytes(st))
            &&& canonical_doc_v1(state_doc_bytes(st), st)
            &&& st.deployments@.last().1.message@ == message@
            &&& (original_id matches Some(o) ==> st.deployments@.last().1.original_id == o)
            &&& (original_id is None ==> st.deployments@.last().1.original_id
                == st.deployments@.last().0)
        },
        forall|s: TargetState|
            #![trigger persisted_canonical(*old(fs), target@, s)]
            persisted_canonical(*old(fs), target@, s) ==> {
                &&& r != Result::<TargetState, Error>::Err(Error::StateCorrupt)
                &&& (!s.can_deploy() ==> r == Result::<TargetState, Error>::Err(
                    Error::IdSpaceExhausted,
                ) || r == Result::<TargetState, Error>::Err(Error::ClockOutOfRange))
                &&& (s.can_deploy() && old(fs).contents(exe@) is None ==> r == Result::<
                    TargetState,
                    Error,
                >::Err(Error::SourceUnreadable) || r == Result::<TargetState, Error>::Err(
                    Error::ClockOutOfRange,
                ))
                &&& (s.can_deploy() && old(fs).contents(exe@) is Some ==> r is Ok || r == Result::<
                    TargetState,
                    Error,
                >::Err(Error::ClockOutOfRange))
                &&& (r matches Ok(st) ==> deploy_step(
                    s,
                    st,
                    *old(fs),
                    *final(fs),
                    exe@,
                    target@,
                    message@,
                ))
            },
        old(fs).contents(state_path_of(target@)) is None ==> {
            &&& r != Result::<TargetState, Error>::Err(Error::StateCorrupt)
            &&& r != Result::<TargetState, Error>::Err(Error::IdSpaceExhausted)
            &&& (old(fs).contents(exe@) is None ==> r == Result::<TargetState, Error>::Err(
                Error::SourceUnreadable,
            ) || r == Result::<TargetState, Error>::Err(Error::ClockOutOfRange))
            &&& (old(fs).contents(exe@) is Some ==> r is Ok || r == Result::<
                TargetState,
                Error,
            >::Err(Error::ClockOutOfRange))
            &&& (r matches Ok(st) ==> st.ids() == seq![0u32] && st.current == Option::Some(0u32)
                && st.deployments@.last().1.original_id == (if original_id is Some {
                original_id.unwrap()
            } else {
                0u32
            }) && final(fs).at(target@) == EntryModel::LinkM(hidden_path_of(target@, 0))
                && final(fs).at(hidden_path_of(target@, 0)) == EntryModel::FileM(
                old(fs).contents(exe@).unwrap(),
            ) && (forall|q: Seq<u8>|
                q != target@ && q != hidden_path_of(target@, 0) && q != state_path_of(target@)
                    ==> final(fs).at(q) == old(fs).at(q)))
        },
{
    let st0: TargetState;
    match load_state(fs, target) {
        Result::Ok(s) => {
            st0 = s;
        },
        Result::Err(e) => {
            return Result::Err(e);
        },
    }
    let now = clock.now();
    if now < 0 || now >= TS_MAX {
        return Result::Err(Error::ClockOutOfRange);
    }
    let r = deploy_with_state(fs, st0, exe, now, message, original_id);
    proof {
        assert forall|s: TargetState|
            persisted_canonical(*old(fs), target@, s) implies st0.ids()
            =~= s.ids() && next_id_u32(st0) == next_id_u32(s) && evict_count(st0) == evict_count(
            s,
        ) && st0.can_deploy() == s.can_deploy() by {
            assert(same_state(st0, s));
            assert forall|k: int| 0 <= k < st0.ids().len() implies st0.ids()[k] == s.ids()[k] by {
                assert(st0.deployments@[k].0 == s.deployments@[k].0);
            }
            assert(st0.ids() =~= s.ids());
        }
        if r is Ok {
            let st = r.unwrap();
            let cut0 = evict_count(st0);
            let pushed_len = st0.deployments@.len() + 1;
            assert forall|s: TargetState|
                persisted_canonical(*old(fs), target@, s) implies deploy_step(
                s,
                st,
                *old(fs),
                *final(fs),
                exe@,
                target@,
                message@,
            ) by {
                assert(same_state(st0, s));
                assert forall|k: int|
                    0 <= k < st.deployments@.len() - 1 implies (#[trigger] st.deployments@[k]).0
                    == s.deployments@[k + cut0].0 && st.deployments@[k].1.time == s.deployments@[k
                    + cut0].1.time && st.deployments@[k].1.message@ == s.deployments@[k
                    + cut0].1.message@ && st.deployments@[k].1.original_id == s.deployments@[k
                    + cut0].1.original_id by {
                    assert(st.deployments@[k] == st0.deployments@[k + cut0]);
                    assert(st0.deployments@[k + cut0].0 == s.deployments@[k + cut0].0);
                }
                assert(st.deployments@.last().0 == next_id_u32(s));
                assert forall|k: int|
                    0 <= k < evict_count(s) implies final(fs).at(
                    hidden_path_of(target@, (#[trigger] s.ids()[k]) as nat),
                ) is AbsentM by {
                    assert(s.ids()[k] == st0.ids()[k]);
                    assert(final(fs).at(
                        hidden_path_of(st0.target@, (st0.ids()[k]) as nat),
                    ) is AbsentM);
                }
                assert forall|q: Seq<u8>|
                    q != target@ && q != hidden_path_of(target@, next_id_u32(s) as nat) && q
                        != state_path_of(target@) && (forall|k: int|
                        0 <= k < evict_count(s) ==> q != hidden_path_of(
                            target@,
                            (#[trigger] s.ids()[k]) as nat,
                        )) implies final(fs).at(q) == old(fs).at(q) by {
                    assert forall|k: int|
                        0 <= k < evict_count(st0) implies q != hidden_path_of(
                        st0.target@,
                        (#[trigger] st0.ids()[k]) as nat,
                    ) by {
                        assert(st0.ids()[k] == s.ids()[k]);
                    }
                }
            }
            if old(fs).contents(state_path_of(target@)) is None {
                assert(st0.ids() =~= Seq::<u32>::empty());
                assert(st.ids() =~= seq![0u32]);
                assert(st.deployments@.last() == st.deployments@[0]);
                assert(next_id_u32(st0) == 0);
                assert(evict_count(st0) == 0);
            }
        }
    }
    r
}

/// The rollback selection succeeds: an explicitly given id is retained, or
/// with none given there is a previous deployment to return to.
pub open spec fn rollback_selectable(s: TargetState, rollback_id: Option<u32>) -> bool {
    match rollback_id {
        Option::Some(o) => s.has_id(o),
        Option::None => s.deployments@.len() >= 2,
    }
}

/// The id a rollback over `s` restores: the given one, or the
/// second-most-recent. Meaningful only when the selection succeeds.
pub open spec fn rollback_choice(s: TargetState, rollback_id: Option<u32>) -> u32 {
    match rollback_id {
        Option::Some(o) => o,
        Option::None => if s.ids().len() >= 2 {
            s.ids()[s.ids().len() - 2]
        } else {
            0u32
        },
    }
}

/// Rolls the target back: redeploys the hidden copy of `rollback_id` — or,
/// when none is given, of the second-most-recent deployment — as a fresh
/// deployment whose record points back at the restored id. History is
/// append-only: rollback never rewrites or deletes prior records. Fails,
/// with no state mutation, when fewer than two deployments exist and no id
/// was given, or when the given id is not retained.
pub fn rollback_internal<C: WallClock>(
    fs: &mut FsModel,
    target: &Vec<u8>,
    clock: &C,
    message: Vec<u8>,
    rollback_id: Option<u32>,
) -> (r: Result<TargetState, Error>)
    requires
        valid_target(target@),
    ensures
        r is Err ==> forall|q: Seq<u8>| final(fs).at(q) == old(fs).at(q),
        r matches Ok(st) ==> {
            &&& st.wf()
            &&& st.current_is_newest()
            &&& st.target@ == target@
            &&& final(fs).at(state_path_of(target@)) == EntryModel::FileM(state_doc_bytes(st))
            &&& canonical_doc_v1(state_doc_bytes(st), st)
            &&& st.deployments@.last().1.message@ == message@
            &&& final(fs).contents(target@) == old(fs).contents(
                hidden_path_of(target@, st.deployments@.last().1.original_id as nat),
            )
            &&& (rollback_id matches Some(o) ==> st.deployments@.last().1.original_id == o)
        },
        forall|s: TargetState|
            #![trigger persisted_canonical(*old(fs), target@, s)]
            persisted_canonical(*old(fs), target@, s) ==> {
                let rid = rollback_choice(s, rollback_id);
                &&& r != Result::<TargetState, Error>::Err(Error::StateCorrupt)
                &&& (r == Result::<TargetState, Error>::Err(Error::NothingToRollBack) <==> (
                rollback_id is None && s.deployments@.len() < 2))
                &&& (rollback_id is Some ==> (r == Result::<TargetState, Error>::Err(
                    Error::UnknownRollbackId(rollback_id.unwrap()),
                ) <==> !s.has_id(rollback_id.unwrap())))
                &&& (rollback_selectable(s, rollback_id) ==> {
                    &&& (!s.can_deploy() ==> r == Result::<TargetState, Error>::Err(
                        Error::IdSpaceExhausted,
                    ) || r == Result::<TargetState, Error>::Err(Error::ClockOutOfRange))
                    &&& (s.can_deploy() && old(fs).contents(
                        hidden_path_of(target@, rid as nat),
                    ) is None ==> r == Result::<TargetState, Error>::Err(Error::SourceUnreadable)
                        || r == Result::<TargetState, Error>::Err(Error::ClockOutOfRange))
                    &&& (s.can_deploy() && old(fs).contents(
                        hidden_path_of(target@, rid as nat),
                    ) is Some ==> r is Ok || r == Result::<TargetState, Error>::Err(
                        Error::ClockOutOfRange,
                    ))
                })
                &&& (r matches Ok(st) ==> deploy_step(
                    s,
                    st,
                    *old(fs),
                    *final(fs),
                    hidden_path_of(target@, rid as nat),
                    target@,
                    message@,
                ) && st.deployments@.last().1.original_id == rid)
            },
        old(fs).contents(state_path_of(target@)) is None ==> (rollback_id is None ==> r
            == Result::<TargetState, Error>::Err(Error::NothingToRollBack)) && (rollback_id
            is Some ==> r == Result::<TargetState, Error>::Err(
            Error::UnknownRollbackId(rollback_id.unwrap()),
        )),
{
    let st0: TargetState;
    match load_state(fs, target) {
        Result::Ok(s) => {
            st0 = s;
        },
        Result::Err(e) => {
            return Result::Err(e);
        },
    }
    proof {
        assert forall|s: TargetState|
            persisted_canonical(*old(fs), target@, s) implies st0.ids()
            =~= s.ids() && st0.deployments@.len() == s.deployments@.len() by {
            assert(same_state(st0, s));
            assert forall|k: int| 0 <= k < st0.ids().len() implies st0.ids()[k] == s.ids()[k] by {
                assert(st0.deployments@[k].0 == s.deployments@[k].0);
            }
        }
    }
    let rid: u32;
    match select_rollback_id(&st0, rollback_id) {
        Result::Ok(x) => {
            rid = x;
        },
        Result::Err(e) => {
            return Result::Err(e);
        },
    }
    let source = get_hidden_target(&st0.target, rid);
    let now = clock.now();
    if now < 0 || now >= TS_MAX {
        return Result::Err(Error::ClockOutOfRange);
    }
    let r = deploy_with_state(fs, st0, &source, now, message, Option::Some(rid));
    proof {
        assert forall|s: TargetState|
            persisted_canonical(*old(fs), target@, s) implies st0.ids()
            == s.ids() && rid == rollback_choice(s, rollback_id) && st0.can_deploy()
            == s.can_deploy() by {
            assert(same_state(st0, s));
            assert forall|k: int| 0 <= k < st0.ids().len() implies st0.ids()[k] == s.ids()[k] by {
                assert(st0.deployments@[k].0 == s.deployments@[k].0);
            }
            assert(st0.ids() =~= s.ids());
        }
        if r is Ok {
            let st = r.unwrap();
            assert(st.deployments@.last().1.original_id == rid);
            let cut0 = evict_count(st0);
            assert forall|s: TargetState|
                persisted_canonical(*old(fs), target@, s) implies deploy_step(
                s,
                st,
                *old(fs),
                *final(fs),
                hidden_path_of(target@, rollback_choice(s, rollback_id) as nat),
                target@,
                message@,
            ) by {
                assert(same_state(st0, s));
                assert(rid == rollback_choice(s, rollback_id));
                assert(source@ == hidden_path_of(target@, rollback_choice(
                    s,
                    rollback_id,
                ) as nat));
                assert forall|k: int|
                    0 <= k < st.deployments@.len() - 1 implies (#[trigger] st.deployments@[k]).0
                    == s.deployments@[k + cut0].0 && st.deployments@[k].1.time == s.deployments@[k
                    + cut0].1.time && st.deployments@[k].1.message@ == s.deployments@[k
                    + cut0].1.message@ && st.deployments@[k].1.original_id == s.deployments@[k
                    + cut0].1.original_id by {
                    assert(st.deployments@[k] == st0.deployments@[k + cut0]);
                    assert(st0.deployments@[k + cut0].0 == s.deployments@[k + cut0].0);
                }
                assert(st.deployments@.last().0 == next_id_u32(s));
                assert forall|k: int|
                    0 <= k < evict_count(s) implies final(fs).at(
                    hidden_path_of(target@, (#[trigger] s.ids()[k]) as nat),
                ) is AbsentM by {
                    assert(s.ids()[k] == st0.ids()[k]);
                    assert(final(fs).at(
                        hidden_path_of(st0.target@, (st0.ids()[k]) as nat),
                    ) is AbsentM);
                }
                assert forall|q: Seq<u8>|
                    q != target@ && q != hidden_path_of(target@, next_id_u32(s) as nat) && q
                        != state_path_of(target@) && (forall|k: int|
                        0 <= k < evict_count(s) ==> q != hidden_path_of(
                            target@,
                            (#[trigger] s.ids()[k]) as nat,
                        )) implies final(fs).at(q) == old(fs).at(q) by {
                    assert forall|k: int|
                        0 <= k < evict_count(st0) implies q != hidden_path_of(
                        st0.target@,
                        (#[trigger] st0.ids()[k]) as nat,
                    ) by {
                        assert(st0.ids()[k] == s.ids()[k]);
                    }
                }
            }
        }
    }
    r
}

/// The deployment history as rows for display: one per retained record,
/// newest first — id, message, timestamp, and whether it is current.
pub fn list_rows(state: &TargetState) -> (r: Vec<(u32, Vec<u8>, i64, bool)>)
    ensures
        r@.len() == state.deployments@.len(),
        forall|i: int|
            0 <= i < r@.len() ==> {
                let k = state.deployments@.len() - 1 - i;
                &&& (#[trigger] r@[i]).0 == state.deployments@[k].0
                &&& r@[i].1@ == state.deployments@[k].1.message@
                &&& r@[i].2 == state.deployments@[k].1.time
                &&& r@[i].3 == (state.current == Option::Some(state.deployments@[k].0))
            },
{
    let n = state.deployments.len();
    let mut r: Vec<(u32, Vec<u8>, i64, bool)> = Vec::new();
    let mut i: usize = 0;
    while i < n
        invariant
            0 <= i <= n,
            n == state.deployments@.len(),
            r@.len() == i,
            forall|q: int|
                0 <= q < i ==> {
                    let k = state.deployments@.len() - 1 - q;
                    &&& (#[trigger] r@[q]).0 == state.deployments@[k].0
                    &&& r@[q].1@ == state.deployments@[k].1.message@
                    &&& r@[q].2 == state.deployments@[k].1.time
                    &&& r@[q].3 == (state.current == Option::Some(state.deployments@[k].0))
                },
        decreases n - i,
    {
        let k = n - 1 - i;
        let id = state.deployments[k].0;
        let is_current = match state.current {
            Option::Some(c) => c == id,
            Option::None => false,
        };
        let msg = copy_bytes(&state.deployments[k].1.message);
        r.push((id, msg, state.deployments[k].1.time, is_current));
        i = i + 1;
    }
    r
}

} // verus!
