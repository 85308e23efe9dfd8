//! A local "promote a built artifact to a stable path" library.
//!
//! A deploy copies an executable into an id-named hidden sibling of the
//! target path, atomically repoints the target symlink at that copy, and
//! records the deployment in a sidecar state file so operators can list
//! deployments and roll back to earlier ones. The deployment state machine
//! — the versioned on-disk schema with its forward migration, the
//! deploy/rollback/garbage-collection protocol, and the invariants tying
//! the symlink, the hidden copies and the state file together — is verified
//! against an in-memory filesystem model; a thin outer layer replays the
//! same plans against the real filesystem.
//!
//! The design assumes a single writer per target: there is no file locking,
//! so two concurrent runs against one target race on the state file and the
//! symlink, last writer wins.

use vstd::prelude::*;

pub mod codec;
pub mod digits;
pub mod engine;
pub mod errors;
pub mod fsmodel;
pub mod jsonesc;
pub mod paths;
pub mod state;
pub mod time;
pub mod wall_clock;

use crate::codec::canonical_doc_v1;
use crate::codec::state_doc_bytes;
use crate::engine::deploy_internal;
use crate::engine::persisted_canonical;
use crate::engine::deploy_step;
use crate::engine::list_rows;
use crate::engine::load_state;
use crate::engine::rollback_choice;
use crate::engine::rollback_internal;
use crate::engine::rollback_selectable;
use crate::errors::Error;
use crate::fsmodel::EntryModel;
use crate::fsmodel::FsModel;
use crate::paths::hidden_path_of;
use crate::paths::state_path_of;
use crate::paths::valid_target;
use crate::state::MAX_VERSIONS_TO_KEEP;
use crate::state::TargetState;
use crate::wall_clock::WallClock;

verus! {

/// Deploys the file at `exe` to the stable path `target`, stamped with the
/// clock's current time: the new record (a fresh deploy, so its original id
/// is its own) becomes current, the target symlink reads byte for byte as
/// the source did, and the updated state is persisted and returned. On any
/// failure the filesystem is untouched.
pub fn deploy<C: WallClock>(
    fs: &mut FsModel,
    exe: &Vec<u8>,
    target: &Vec<u8>,
    message: Vec<u8>,
    clock: &C,
) -> (r: Result<TargetState, Error>)
    requires
        valid_target(target@),
    ensures
        r is Err ==> forall|q: Seq<u8>| final(fs).at(q) == old(fs).at(q),
        r matches Ok(st) ==> {
            &&& st.wf()
            &&& st.current_is_newest()
            &&& st.target@ == target@
            &&& 1 <= st.deployments@.len() <= MAX_VERSIONS_TO_KEEP
            &&& old(fs).contents(exe@) is Some
            &&& final(fs).contents(target@) == old(fs).contents(exe@)
            &&& final(fs).at(state_path_of(target@)) == EntryModel::FileM(state_doc_bytes(st))
            &&& canonical_doc_v1(state_doc_bytes(st), st)
            &&& st.deployments@.last().1.message@ == message@
            &&& st.deployments@.last().1.original_id == st.deployments@.last().0
        },
        forall|s: TargetState|
            #![trigger persisted_canonical(*old(fs), target@, s)]
            persisted_canonical(*old(fs), target@, s) ==> {
                &&& r != Result::<TargetState, Error>::Err(Error::StateCorrupt)
                &&& (!s.can_deploy() ==> r == Result::<TargetState, Error>::Err(
                    Error::IdSpaceExhausted,
                ) || r == Result::<TargetState, Error>::Err(Error::ClockOutOfRange))
                &&& (s.can_deploy() && old(fs).contents(exe@) is None ==> r == Result::<
                    TargetState,
                    Error,
                >::Err(Error::SourceUnreadable) || r == Result::<TargetState, Error>::Err(
                    Error::ClockOutOfRange,
                ))
                &&& (s.can_deploy() && old(fs).contents(exe@) is Some ==> r is Ok || r == Result::<
                    TargetState,
                    Error,
                >::Err(Error::ClockOutOfRange))
                &&& (r matches Ok(st) ==> deploy_step(
                    s,
                    st,
                    *old(fs),
                    *final(fs),
                    exe@,
                    target@,
                    message@,
                ))
            },
        old(fs).contents(state_path_of(target@)) is None ==> {
            &&& r != Result::<TargetState, Error>::Err(Error::StateCorrupt)
            &&& r != Result::<TargetState, Error>::Err(Error::IdSpaceExhausted)
            &&& (old(fs).contents(exe@) is None ==> r == Result::<TargetState, Error>::Err(
                Error::SourceUnreadable,
            ) || r == Result::<TargetState, Error>::Err(Error::ClockOutOfRange))
            &&& (old(fs).contents(exe@) is Some ==> r is Ok || r == Result::<
                TargetState,
                Error,
            >::Err(Error::ClockOutOfRange))
            &&& (r matches Ok(st) ==> st.ids() == seq![0u32] && st.current == Option::Some(0u32)
                && st.deployments@.last().1.original_id == 0u32 && final(fs).at(target@)
                == EntryModel::LinkM(hidden_path_of(target@, 0)) && final(fs).at(
                hidden_path_of(target@, 0),
            ) == EntryModel::FileM(old(fs).contents(exe@).unwrap()) && (forall|q: Seq<u8>|
                q != target@ && q != hidden_path_of(target@, 0) && q != state_path_of(target@)
                    ==> final(fs).at(q) == old(fs).at(q)))
        },
{
    let r = deploy_internal(fs, exe, target, clock, message, Option::None);
    proof {
        if r is Ok {
            let st = r.unwrap();
            assert(st.current == Option::Some(st.ids().last()));
            assert(st.deployments@.last().0 == st.ids().last());
        }
    }
    r
}

/// Rolls `target` back to `rollback_id`, or to the second-most-recent
/// deployment when no id is given, as a fresh deployment whose record
/// points back at the restored id. Fails, with no state mutation, when
/// fewer than two deployments exist and no id was given, or when the given
/// id is not retained.
pub fn rollback<C: WallClock>(
    fs: &mut FsModel,
    target: &Vec<u8>,
    message: Vec<u8>,
    rollback_id: Option<u32>,
    clock: &C,
) -> (r: Result<(), Error>)
    requires
        valid_target(target@),
    ensures
        r is Err ==> forall|q: Seq<u8>| final(fs).at(q) == old(fs).at(q),
        r is Ok ==> exists|st: TargetState|
            {
                &&& st.wf()
                &&& st.current_is_newest()
                &&& st.target@ == target@
                &&& #[trigger] canonical_doc_v1(state_doc_bytes(st), st)
                &&& final(fs).at(state_path_of(target@)) == EntryModel::FileM(state_doc_bytes(st))
                &&& st.deployments@.last().1.message@ == message@
                &&& final(fs).contents(target@) == old(fs).contents(
                    hidden_path_of(target@, st.deployments@.last().1.original_id as nat),
                )
                &&& (rollback_id matches Some(o) ==> st.deployments@.last().1.original_id == o)
            },
        forall|s: TargetState|
            #![trigger persisted_canonical(*old(fs), target@, s)]
            persisted_canonical(*old(fs), target@, s) ==> {
                let rid = rollback_choice(s, rollback_id);
                &&& r != Result::<(), Error>::Err(Error::StateCorrupt)
                &&& (r == Result::<(), Error>::Err(Error::NothingToRollBack) <==> (rollback_id
                    is None && s.deployments@.len() < 2))
                &&& (rollback_id is Some ==> (r == Result::<(), Error>::Err(
                    Error::UnknownRollbackId(rollback_id.unwrap()),
                ) <==> !s.has_id(rollback_id.unwrap())))
                &&& (rollback_selectable(s, rollback_id) ==> {
                    &&& (!s.can_deploy() ==> r == Result::<(), Error>::Err(Error::IdSpaceExhausted)
                        || r == Result::<(), Error>::Err(Error::ClockOutOfRange))
                    &&& (s.can_deploy() && old(fs).contents(
                        hidden_path_of(target@, rid as nat),
                    ) is None ==> r == Result::<(), Error>::Err(Error::SourceUnreadable) || r
                        == Result::<(), Error>::Err(Error::ClockOutOfRange))
                    &&& (s.can_deploy() && old(fs).contents(
                        hidden_path_of(target@, rid as nat),
                    ) is Some ==> r is Ok || r == Result::<(), Error>::Err(Error::ClockOutOfRange))
                })
                &&& (r is Ok ==> exists|st: TargetState|
                    deploy_step(
                        s,
                        st,
                        *old(fs),
                        *final(fs),
                        hidden_path_of(target@, rid as nat),
                        target@,
                        message@,
                    ) && (#[trigger] st.deployments@).last().1.original_id == rid && st.wf()
                        && canonical_doc_v1(state_doc_bytes(st), st) && final(fs).at(
                        state_path_of(target@),
                    ) == EntryModel::FileM(state_doc_bytes(st)))
            },
        old(fs).contents(state_path_of(target@)) is None ==> (rollback_id is None ==> r
            == Result::<(), Error>::Err(Error::NothingToRollBack)) && (rollback_id is Some ==> r
            == Result::<(), Error>::Err(Error::UnknownRollbackId(rollback_id.unwrap()))),
{
    let r0 = rollback_internal(fs, target, clock, message, rollback_id);
    match r0 {
        Result::Ok(st) => {
            proof {
                assert forall|s: TargetState|
                    persisted_canonical(*old(fs), target@, s) implies exists|w: TargetState|
                    deploy_step(
                        s,
                        w,
                        *old(fs),
                        *final(fs),
                        hidden_path_of(target@, rollback_choice(s, rollback_id) as nat),
                        target@,
                        message@,
                    ) && (#[trigger] w.deployments@).last().1.original_id == rollback_choice(
                        s,
                        rollback_id,
                    ) && w.wf() && canonical_doc_v1(state_doc_bytes(w), w) && final(fs).at(
                        state_path_of(target@),
                    ) == EntryModel::FileM(state_doc_bytes(w)) by {
                    assert(deploy_step(
                        s,
                        st,
                        *old(fs),
                        *final(fs),
                        hidden_path_of(target@, rollback_choice(s, rollback_id) as nat),
                        target@,
                        message@,
                    ) && st.deployments@.last().1.original_id == rollback_choice(s, rollback_id)
                        && st.wf() && canonical_doc_v1(state_doc_bytes(st), st) && final(fs).at(
                        state_path_of(target@),
                    ) == EntryModel::FileM(state_doc_bytes(st)));
                }
            }
            Result::Ok(())
        },
        Result::Err(e) => Result::Err(e),
    }
}

/// The deployment history of `target` as display rows, newest first: id,
/// message, timestamp, and whether the row is the current deployment. A
/// target never deployed to lists as empty.
pub fn list(fs: &FsModel, target: &Vec<u8>) -> (r: Result<Vec<(u32, Vec<u8>, i64, bool)>, Error>)
    requires
        valid_target(target@),
    ensures
        r is Err ==> r == Result::<Vec<(u32, Vec<u8>, i64, bool)>, Error>::Err(Error::StateCorrupt),
        fs.contents(state_path_of(target@)) is None ==> (r matches Ok(v) && v@.len() == 0),
        r is Ok ==> fs.contents(state_path_of(target@)) is None || (exists|w: TargetState|
            #[trigger] crate::codec::loadable_doc(
                fs.contents(state_path_of(target@)).unwrap(),
                w,
            ) && w.wf() && w.target@ == target@),
        forall|s: TargetState|
            #![trigger persisted_canonical(*fs, target@, s)]
            persisted_canonical(*fs, target@, s) ==> (r
            matches Ok(v) && v@.len() == s.deployments@.len() && (forall|i: int|
                0 <= i < v@.len() ==> {
                    let k = s.deployments@.len() - 1 - i;
                    &&& (#[trigger] v@[i]).0 == s.deployments@[k].0
                    &&& v@[i].1@ == s.deployments@[k].1.message@
                    &&& v@[i].2 == s.deployments@[k].1.time
                    &&& v@[i].3 == (s.current == Option::Some(s.deployments@[k].0))
                })),
{
    let st: TargetState;
    match load_state(fs, target) {
        Result::Ok(s) => {
            st = s;
        },
        Result::Err(e) => {
            return Result::Err(e);
        },
    }
    let rows = list_rows(&st);
    proof {
        if fs.contents(state_path_of(target@)) is Some {
            assert(crate::codec::loadable_doc(
                fs.contents(state_path_of(target@)).unwrap(),
                st,
            ));
        }
        assert forall|s: TargetState|
            persisted_canonical(*fs, target@, s) implies (
        rows@.len() == s.deployments@.len() && (forall|i: int|
            0 <= i < rows@.len() ==> {
                let k = s.deployments@.len() - 1 - i;
                &&& (#[trigger] rows@[i]).0 == s.deployments@[k].0
                &&& rows@[i].1@ == s.deployments@[k].1.message@
                &&& rows@[i].2 == s.deployments@[k].1.time
                &&& rows@[i].3 == (s.current == Option::Some(s.deployments@[k].0))
            })) by {
            assert(crate::codec::same_state(st, s));
            assert forall|i: int|
                0 <= i < rows@.len() implies {
                let k = s.deployments@.len() - 1 - i;
                &&& (#[trigger] rows@[i]).0 == s.deployments@[k].0
                &&& rows@[i].1@ == s.deployments@[k].1.message@
                &&& rows@[i].2 == s.deployments@[k].1.time
                &&& rows@[i].3 == (s.current == Option::Some(s.deployments@[k].0))
            } by {
                let k = s.deployments@.len() - 1 - i;
                assert(st.deployments@[k].0 == s.deployments@[k].0);
                assert(st.deployments@[k].1.message@ == s.deployments@[k].1.message@);
                assert(st.deployments@[k].1.time == s.deployments@[k].1.time);
            }
        }
    }
    Result::Ok(rows)
}

} // verus!
