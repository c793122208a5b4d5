//! The push engine's verified decisions around the upload loop: the
//! non-fast-forward-style guard, the per-object preparation with its
//! idempotent skip, and the final index mutation once every scheduled
//! object is confirmed.

use vstd::prelude::*;

use crate::errors::RepoError;
use crate::ids::spec_submodule_tip_marker;
use crate::local_repo::LocalRepo;
use crate::objects::{GitObject, ObjectKind};
use crate::refs::{refs_at, refs_has, refs_same_except};
use crate::repo_data::RepoData;

verus! {

/// The guard of a non-forced push: the current remote tip's closure is
/// enumerated against local presence (a dry fetch enumeration), and the
/// push proceeds only if nothing is missing locally. A non-empty schedule,
/// or a tip whose closure leaves the index entirely, is remote-visible
/// history the pusher cannot see: `PullNeededError`, recoverable by
/// fetching first or forcing the push. Any other enumeration failure is
/// passed through.
pub fn check_push_guard(plan: &Result<Vec<Vec<u8>>, RepoError>) -> (r: Result<(), RepoError>)
    ensures
        match r {
            Ok(()) => match plan {
                Ok(v) => v.deep_view().len() == 0,
                Err(_) => false,
            },
            Err(e) => {
                &&& (e == RepoError::PullNeededError <==> ((plan matches Ok(v)
                    && v.deep_view().len() > 0) || *plan == Err::<Vec<Vec<u8>>, RepoError>(
                    RepoError::ObjectNotIndexed,
                ) || *plan == Err::<Vec<Vec<u8>>, RepoError>(RepoError::PullNeededError)))
                &&& match plan {
                    Err(pe) => *pe == RepoError::ObjectNotIndexed || e == *pe,
                    Ok(_) => e == RepoError::PullNeededError,
                }
            },
        },
{
    match plan {
        Ok(missing) => {
            if missing.len() == 0 {
                proof {
                    assert(missing@.len() == 0);
                    assert(missing.deep_view().len() == 0);
                    assert(match plan {
                        Ok(v) => v.deep_view().len() == 0,
                        Err(_) => false,
                    });
                }
                Ok(())
            } else {
                proof {
                    assert(missing@.len() > 0);
                    assert(missing.deep_view().len() > 0);
                }
                Err(RepoError::PullNeededError)
            }
        },
        Err(RepoError::ObjectNotIndexed) => Err(RepoError::PullNeededError),
        Err(e) => Err(*e),
    }
}

/// Prepares one scheduled object for upload: an id that reached the index
/// meanwhile is skipped (never re-uploaded), anything else is read from the
/// local store and converted to its transport form.
pub fn prepare_object(index: &RepoData, repo: &LocalRepo, id: &Vec<u8>) -> (r: Result<
    Option<GitObject>,
    RepoError,
>)
    requires
        repo.wf(),
    ensures
        match r {
            Ok(Some(g)) => !index.objs().contains(id@) && repo.has_obj(id@) && g@.git_hash
                == repo.obj_at(id@).id && g@.git_hash == id@ && g@.raw_data == repo.obj_at(
                id@,
            ).data && g@.kind() == repo.obj_at(id@).kind,
            Ok(None) => index.objs().contains(id@),
            Err(RepoError::ObjectReadError) => !index.objs().contains(id@) && !repo.has_obj(id@),
            Err(RepoError::UnsupportedKind) => !index.objs().contains(id@) && repo.has_obj(id@)
                && repo.obj_at(id@).kind == ObjectKind::Other,
            Err(_) => false,
        },
{
    if index.contains_object(id) {
        return Ok(None);
    }
    let obj = match repo.get(id) {
        Some(o) => o,
        None => {
            return Err(RepoError::ObjectReadError);
        },
    };
    match GitObject::from_local(obj) {
        Ok(g) => Ok(Some(g)),
        Err(e) => Err(e),
    }
}

/// Completes a push once every scheduled object is confirmed: one sentinel
/// joins the object list per submodule tip met, and the destination
/// reference is set to the pushed tip — also when the push was forced past
/// the guard, overwriting whatever the reference held.
pub fn finish_push(index: &mut RepoData, submodule_count: usize, dst_ref: &Vec<u8>, tip: &Vec<u8>)
    requires
        old(index).wf(),
    ensures
        final(index).wf(),
        final(index).objs() == old(index).objs() + Seq::new(
            submodule_count as nat,
            |i: int| spec_submodule_tip_marker(),
        ),
        refs_has(final(index).refs_v(), dst_ref@),
        refs_at(final(index).refs_v(), dst_ref@) == tip@,
        refs_same_except(old(index).refs_v(), final(index).refs_v(), dst_ref@),
{
    index.append_submodule_sentinels(submodule_count);
    index.set_ref(dst_ref, tip);
}

} // verus!
