//! A model of the local object store: the objects the local repository
//! holds, keyed by their content hash, and its references.
//!
//! The engine only ever asks this store the questions the synchronization
//! protocol needs: does an object exist, what are its kind, bytes and
//! structural references, what does a reference point at — and it writes
//! fetched objects back, verifying that their bytes hash to the id they
//! were fetched for.

use vstd::prelude::*;

use crate::errors::RepoError;
use crate::ids::{bytes_eq, copy_bytes, RefEntry};
use crate::objects::{links_match, GitObject, LocalObject, LocalObjectView, ObjectKind, ObjectLinks};
use crate::refs::{refs_at, refs_has, refs_lookup, refs_names_unique, refs_same_except, refs_set};

verus! {

/// The object id git assigns to an object of the given kind (coded as in
/// git's own object-type numbering) with the given content. No statement of
/// the hashing algorithm is made here; the engine relies only on the id
/// being a function of kind and content.
pub uninterp spec fn git_hash_of(kind: int, data: Seq<u8>) -> Seq<u8>;

/// Whether the local version-control system accepts a hashing request for
/// this kind and content. Like the id itself, acceptance is a function of
/// the kind and the bytes alone.
pub uninterp spec fn git_hash_ok(kind: int, data: Seq<u8>) -> bool;

/// The git object-type code of a kind.
pub open spec fn kind_code(k: ObjectKind) -> int {
    match k {
        ObjectKind::Commit => 1,
        ObjectKind::Tree => 2,
        ObjectKind::Blob => 3,
        ObjectKind::Tag => 4,
        ObjectKind::Other => 0,
    }
}

/// Relies on git2's `Oid::hash_object`: the object id of a git object is
/// the SHA-1 over its kind-tagged content — a function of the kind and the
/// bytes alone — and its textual form is 40 lowercase hex characters.
/// Whether the request is accepted is equally a function of the kind and
/// the bytes alone (an unrecognized kind is always refused, and the only
/// content-dependent refusal is the deterministic collision check); any
/// failure is surfaced as `ObjectReadError`.
#[verifier::external_body]
fn hash_object_id(kind: ObjectKind, data: &Vec<u8>) -> (r: Result<Vec<u8>, RepoError>)
    ensures
        match r {
            Ok(h) => git_hash_ok(kind_code(kind), data@) && h@ == git_hash_of(
                kind_code(kind),
                data@,
            ) && h@.len() == 40,
            Err(e) => e == RepoError::ObjectReadError && !git_hash_ok(kind_code(kind), data@),
        },
{
    let k = match kind {
        ObjectKind::Commit => git2::ObjectType::Commit,
        ObjectKind::Tree => git2::ObjectType::Tree,
        ObjectKind::Blob => git2::ObjectType::Blob,
        ObjectKind::Tag => git2::ObjectType::Tag,
        ObjectKind::Other => git2::ObjectType::Any,
    };
    match git2::Oid::hash_object(k, data) {
        Ok(oid) => Ok(oid.to_string().into_bytes()),
        Err(_) => Err(RepoError::ObjectReadError),
    }
}

/// The local repository: its object database and its references.
pub struct LocalRepo {
    pub objects: Vec<LocalObject>,
    pub refs: Vec<RefEntry>,
}

impl LocalRepo {
    /// The stored objects, as views.
    pub open spec fn objs(self) -> Seq<LocalObjectView> {
        self.objects.deep_view()
    }

    /// An object with this id is present.
    pub open spec fn has_obj(self, id: Seq<u8>) -> bool {
        exists|i: int| 0 <= i < self.objs().len() && (#[trigger] self.objs()[i]).id == id
    }

    /// The object stored under `id` (meaningful when `has_obj(id)` and the
    /// store is well formed).
    pub open spec fn obj_at(self, id: Seq<u8>) -> LocalObjectView {
        let i = choose|i: int| 0 <= i < self.objs().len() && (#[trigger] self.objs()[i]).id == id;
        self.objs()[i]
    }

    /// Ids are unique, every object's references fit its kind, and
    /// reference names are unique.
    pub open spec fn wf(self) -> bool {
        &&& forall|i: int, j: int|
            0 <= i < j < self.objs().len() ==> (#[trigger] self.objs()[i]).id != (
            #[trigger] self.objs()[j]).id
        &&& forall|i: int| 0 <= i < self.objs().len() ==> (#[trigger] self.objs()[i]).wf()
        &&& refs_names_unique(self.refs.deep_view())
    }

    /// In a well-formed store, the object at any index with a matching id
    /// is the object the store assigns to that id.
    pub proof fn lemma_obj_at_is(self, id: Seq<u8>, k: int)
        requires
            self.wf(),
            0 <= k < self.objs().len(),
            self.objs()[k].id == id,
        ensures
            self.has_obj(id),
            self.obj_at(id) == self.objs()[k],
    {
        assert(self.has_obj(id));
        let k2 = choose|k2: int|
            0 <= k2 < self.objs().len() && (#[trigger] self.objs()[k2]).id == id;
        if k2 != k {
            assert(self.objs()[k2].id == id);
            assert(self.objs()[k].id == id);
            assert(false);
        }
    }

    /// The cheap presence probe (a header read, no full object read).
    pub fn has(&self, id: &Vec<u8>) -> (r: bool)
        ensures
            r == self.has_obj(id@),
    {
        let mut i: usize = 0;
        while i < self.objects.len()
            invariant
                0 <= i <= self.objects.len(),
                forall|j: int| 0 <= j < i ==> (#[trigger] self.objs()[j]).id != id@,
            decreases self.objects.len() - i,
        {
            proof {
                assert(self.objs()[i as int] == self.objects[i as int]@);
            }
            if bytes_eq(&self.objects[i].id, id) {
                return true;
            }
            i += 1;
        }
        false
    }

    /// Reads an object by id.
    pub fn get(&self, id: &Vec<u8>) -> (r: Option<&LocalObject>)
        requires
            self.wf(),
        ensures
            match r {
                Some(o) => self.has_obj(id@) && o@ == self.obj_at(id@),
                None => !self.has_obj(id@),
            },
    {
        let mut i: usize = 0;
        while i < self.objects.len()
            invariant
                self.wf(),
                0 <= i <= self.objects.len(),
                forall|j: int| 0 <= j < i ==> (#[trigger] self.objs()[j]).id != id@,
            decreases self.objects.len() - i,
        {
            proof {
                assert(self.objs()[i as int] == self.objects[i as int]@);
            }
            if bytes_eq(&self.objects[i].id, id) {
                proof {
                    self.lemma_obj_at_is(id@, i as int);
                }
                return Some(&self.objects[i]);
            }
            i += 1;
        }
        None
    }

    /// What a reference points at, if it exists.
    pub fn resolve_ref(&self, name: &Vec<u8>) -> (r: Option<Vec<u8>>)
        requires
            self.wf(),
        ensures
            match r {
                Some(t) => refs_has(self.refs.deep_view(), name@) && t@ == refs_at(
                    self.refs.deep_view(),
                    name@,
                ),
                None => !refs_has(self.refs.deep_view(), name@),
            },
    {
        refs_lookup(&self.refs, name)
    }

    /// Resolves a reference for a push and peels it: an annotated tag is
    /// pushed as the tag object itself, anything else must peel to a
    /// commit. A missing reference, a missing target object, or a target
    /// of any other kind is an `ObjectReadError`.
    pub fn resolve_ref_for_push(&self, name: &Vec<u8>) -> (r: Result<Vec<u8>, RepoError>)
        requires
            self.wf(),
        ensures
            match r {
                Ok(id) => refs_has(self.refs.deep_view(), name@) && id@ == refs_at(
                    self.refs.deep_view(),
                    name@,
                ) && self.has_obj(id@) && (self.obj_at(id@).kind == ObjectKind::Commit
                    || self.obj_at(id@).kind == ObjectKind::Tag),
                Err(e) => e == RepoError::ObjectReadError && !(refs_has(
                    self.refs.deep_view(),
                    name@,
                ) && self.has_obj(refs_at(self.refs.deep_view(), name@)) && (self.obj_at(
                    refs_at(self.refs.deep_view(), name@),
                ).kind == ObjectKind::Commit || self.obj_at(
                    refs_at(self.refs.deep_view(), name@),
                ).kind == ObjectKind::Tag)),
            },
    {
        let target = match refs_lookup(&self.refs, name) {
            Some(t) => t,
            None => {
                return Err(RepoError::ObjectReadError);
            },
        };
        match self.get(&target) {
            Some(o) => match o.kind {
                ObjectKind::Commit => Ok(target),
                ObjectKind::Tag => Ok(target),
                _ => Err(RepoError::ObjectReadError),
            },
            None => Err(RepoError::ObjectReadError),
        }
    }

    /// Force-sets a reference.
    pub fn update_ref(&mut self, name: &Vec<u8>, id: &Vec<u8>)
        requires
            old(self).wf(),
        ensures
            final(self).wf(),
            final(self).objs() == old(self).objs(),
            refs_has(final(self).refs.deep_view(), name@),
            refs_at(final(self).refs.deep_view(), name@) == id@,
            refs_same_except(old(self).refs.deep_view(), final(self).refs.deep_view(), name@),
    {
        refs_set(&mut self.refs, name, id);
    }

    /// Materializes a fetched object: writes its raw bytes to the object
    /// database, which stores them under the id they actually hash to, and
    /// verifies that this id is the one the object was fetched for. On a
    /// mismatch the fetch fails with `IntegrityError` — never with any
    /// other error — and the store holds no object under the requested id.
    /// `ObjectReadError` is confined to content the hasher itself refuses.
    /// An object already present under
    /// the requested id is skipped untouched. `links` is the structure the
    /// database will expose for the written bytes.
    pub fn apply_fetched(&mut self, obj: &GitObject, links: ObjectLinks) -> (r: Result<
        Vec<u8>,
        RepoError,
    >)
        requires
            old(self).wf(),
            links_match(obj@.kind(), links@),
        ensures
            final(self).wf(),
            final(self).refs.deep_view() == old(self).refs.deep_view(),
            match r {
                Ok(id) => id@ == obj@.git_hash && final(self).has_obj(obj@.git_hash) && (if old(self).has_obj(obj@.git_hash) {
                    final(self).objs() == old(self).objs()
                } else {
                    git_hash_ok(kind_code(obj@.kind()), obj@.raw_data) && git_hash_of(
                        kind_code(obj@.kind()),
                        obj@.raw_data,
                    ) == obj@.git_hash && final(self).obj_at(obj@.git_hash) == (LocalObjectView {
                        id: obj@.git_hash,
                        kind: obj@.kind(),
                        data: obj@.raw_data,
                        links: links@,
                    }) && (forall|y: Seq<u8>|
                        final(self).has_obj(y) <==> old(self).has_obj(y) || y == obj@.git_hash)
                }),
                Err(RepoError::IntegrityError) => !old(self).has_obj(obj@.git_hash)
                    && git_hash_ok(kind_code(obj@.kind()), obj@.raw_data) && git_hash_of(
                    kind_code(obj@.kind()),
                    obj@.raw_data,
                ) != obj@.git_hash && !final(self).has_obj(obj@.git_hash) && (forall|y: Seq<u8>|
                    final(self).has_obj(y) <==> old(self).has_obj(y) || y == git_hash_of(
                        kind_code(obj@.kind()),
                        obj@.raw_data,
                    )),
                Err(RepoError::ObjectReadError) => !old(self).has_obj(obj@.git_hash)
                    && !git_hash_ok(kind_code(obj@.kind()), obj@.raw_data) && final(self).objs()
                    == old(self).objs(),
                Err(_) => false,
            },
    {
        let kind = obj.kind();
        if self.has(&obj.git_hash) {
            return Ok(copy_bytes(&obj.git_hash));
        }
        let h = match hash_object_id(kind, &obj.raw_data) {
            Ok(h) => h,
            Err(e) => {
                return Err(e);
            },
        };
        if !self.has(&h) {
            let ghost pre = self.objs();
            let stored = LocalObject {
                id: copy_bytes(&h),
                kind,
                data: copy_bytes(&obj.raw_data),
                links,
            };
            self.objects.push(stored);
            proof {
                let post = self.objs();
                assert forall|k: int| 0 <= k < post.len() implies post[k] == (if k < pre.len() {
                    pre[k]
                } else {
                    LocalObjectView { id: h@, kind, data: obj@.raw_data, links: links@ }
                }) by {
                    assert(post[k] == self.objects[k]@);
                }
                assert forall|y: Seq<u8>| self.has_obj(y) <==> (old(self).has_obj(y) || y
                    == h@) by {
                    if self.has_obj(y) {
                        let k = choose|k: int|
                            0 <= k < post.len() && (#[trigger] post[k]).id == y;
                        if k < pre.len() {
                            assert(old(self).objs()[k].id == y);
                        }
                    }
                    if old(self).has_obj(y) {
                        let k = choose|k: int|
                            0 <= k < pre.len() && (#[trigger] pre[k]).id == y;
                        assert(post[k].id == y);
                    }
                    if y == h@ {
                        assert(post[post.len() - 1].id == y);
                    }
                }
                assert forall|i: int, j: int| 0 <= i < j < post.len() implies (
                #[trigger] post[i]).id != (#[trigger] post[j]).id by {
                    if j == post.len() - 1 {
                        assert(post[i] == pre[i]);
                        if pre[i].id == h@ {
                            assert(old(self).has_obj(h@));
                        }
                    } else {
                        assert(post[i] == pre[i]);
                        assert(post[j] == pre[j]);
                    }
                }
                self.lemma_obj_at_is(h@, post.len() - 1);
            }
        } else {
            proof {
                assert forall|y: Seq<u8>| self.has_obj(y) <==> (old(self).has_obj(y) || y
                    == h@) by {}
            }
        }
        if bytes_eq(&h, &obj.git_hash) {
            Ok(h)
        } else {
            Err(RepoError::IntegrityError)
        }
    }
}

} // verus!
