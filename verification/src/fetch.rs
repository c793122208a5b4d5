//! The fetch engine's verified core: the enumeration planner that walks the
//! remote metadata graph one object at a time, and the reference-update
//! decision taken once the objects are materialized.
//!
//! The planner is a state machine because each step of the enumeration may
//! need one object's metadata from the remote store: the embedding program
//! performs that download and hands the object back through `supply`.

use vstd::prelude::*;

use crate::errors::RepoError;
use crate::ids::{bytes_eq, copy_bytes, copy_id_list, id_list_contains, bytes_starts_with,
    push_id, spec_submodule_tip_marker, submodule_tip_marker, tags_prefix, spec_tags_prefix};
use crate::local_repo::LocalRepo;
use crate::objects::{GitObject, GitObjectMetadata, GitObjectMetadataView, ObjectKind};
use crate::refs::{refs_at, refs_has, refs_same_except};
use crate::repo_data::RepoData;

verus! {

/// The ids one transported object depends on, in the order the planner
/// queues them: a commit's tree then its parents, a tag's target, a tree's
/// entries; a blob depends on nothing.
pub open spec fn meta_children(m: GitObjectMetadataView) -> Seq<Seq<u8>> {
    match m {
        GitObjectMetadataView::Commit { parent_git_hashes, tree_git_hash } => seq![tree_git_hash]
            + parent_git_hashes,
        GitObjectMetadataView::Tag { target_git_hash } => seq![target_git_hash],
        GitObjectMetadataView::Tree { entry_git_hashes } => entry_git_hashes,
        GitObjectMetadataView::Blob => Seq::empty(),
    }
}

/// What one planner step asks for.
#[derive(Debug)]
pub enum PlanStep {
    /// The metadata of this id is needed from the remote store; answer with
    /// `supply` before stepping again.
    Need(Vec<u8>),
    /// The enumeration is complete.
    Done,
}

proof fn lemma_id_contains_drop_last(s: Seq<Seq<u8>>, x: Seq<u8>)
    requires
        s.contains(x),
        s.len() > 0,
        x != s.last(),
    ensures
        s.drop_last().contains(x),
{
    let i = choose|i: int| 0 <= i < s.len() && s[i] == x;
    assert(i != s.len() - 1);
    assert(s.drop_last()[i] == x);
}

proof fn lemma_id_contains_push(s: Seq<Seq<u8>>, x: Seq<u8>, y: Seq<u8>)
    ensures
        s.push(x).contains(y) <==> (s.contains(y) || y == x),
{
    if s.push(x).contains(y) {
        let i = choose|i: int| 0 <= i < s.push(x).len() && s.push(x)[i] == y;
        if i < s.len() {
            assert(s[i] == y);
        }
    }
    if s.contains(y) {
        let i = choose|i: int| 0 <= i < s.len() && s[i] == y;
        assert(s.push(x)[i] == y);
    }
    if y == x {
        assert(s.push(x)[s.len() as int] == y);
    }
}

proof fn lemma_id_contains_concat(a: Seq<Seq<u8>>, b: Seq<Seq<u8>>, y: Seq<u8>)
    ensures
        (a + b).contains(y) <==> (a.contains(y) || b.contains(y)),
{
    if (a + b).contains(y) {
        let i = choose|i: int| 0 <= i < (a + b).len() && (a + b)[i] == y;
        if i < a.len() {
            assert(a[i] == y);
        } else {
            assert(b[i - a.len()] == y);
        }
    }
    if a.contains(y) {
        let i = choose|i: int| 0 <= i < a.len() && a[i] == y;
        assert((a + b)[i] == y);
    }
    if b.contains(y) {
        let i = choose|i: int| 0 <= i < b.len() && b[i] == y;
        assert((a + b)[a.len() + i] == y);
    }
}

/// A dependency path through the supplied metadata: consecutive ids are
/// linked by the edges the remote store reported during the enumeration.
pub open spec fn is_meta_path(kids: Map<Seq<u8>, Seq<Seq<u8>>>, p: Seq<Seq<u8>>) -> bool {
    &&& p.len() > 0
    &&& forall|i: int|
        0 <= i < p.len() - 1 ==> kids.dom().contains(#[trigger] p[i]) && kids[p[i]].contains(
            p[i + 1],
        )
}

/// `id` is reachable from `root` along supplied metadata edges.
pub open spec fn meta_reach(kids: Map<Seq<u8>, Seq<Seq<u8>>>, root: Seq<u8>, id: Seq<u8>) -> bool {
    exists|p: Seq<Seq<u8>>|
        (#[trigger] is_meta_path(kids, p)) && p.first() == root && p.last() == id
}

/// Law: fetch completeness. Once the enumeration's schedule is closed —
/// every supplied dependency of a scheduled id is present locally or
/// scheduled itself — and every scheduled id has been materialized into the
/// local store, every id reachable from the fetch target along supplied
/// metadata edges is present in the local store.
pub proof fn lemma_fetch_complete(
    repo: LocalRepo,
    todo: Seq<Seq<u8>>,
    kids: Map<Seq<u8>, Seq<Seq<u8>>>,
    root: Seq<u8>,
)
    requires
        repo.has_obj(root) || todo.contains(root),
        forall|y: Seq<u8>, c: Seq<u8>|
            #![auto]
            kids.dom().contains(y) && kids[y].contains(c) ==> repo.has_obj(c) || todo.contains(c),
        forall|y: Seq<u8>| #![auto] todo.contains(y) ==> repo.has_obj(y),
    ensures
        forall|id: Seq<u8>| #![auto] meta_reach(kids, root, id) ==> repo.has_obj(id),
{
    assert forall|id: Seq<u8>| #![auto] meta_reach(kids, root, id) implies repo.has_obj(id) by {
        let p = choose|p: Seq<Seq<u8>>|
            (#[trigger] is_meta_path(kids, p)) && p.first() == root && p.last() == id;
        if p.len() == 1 {
            assert(p.last() == p.first());
        } else {
            let i = p.len() - 2;
            assert(kids.dom().contains(p[i]) && kids[p[i]].contains(p[i + 1]));
            assert(p[i + 1] == p.last());
        }
    }
}

/// The fetch enumeration: an explicit-stack traversal over remote metadata.
/// An id already present locally, or already scheduled, is skipped; an id
/// absent from the index aborts with `ObjectNotIndexed`; meeting the
/// submodule sentinel ends the whole enumeration at once.
pub struct FetchPlanner {
    /// The index's object list, fixed at planning start.
    pub objects: Vec<Vec<u8>>,
    /// Ids still to examine.
    pub stack: Vec<Vec<u8>>,
    /// The schedule: ids that must be downloaded.
    pub todo: Vec<Vec<u8>>,
    /// A metadata request is outstanding.
    pub awaiting: bool,
    /// The enumeration has ended.
    pub finished: bool,
    /// The enumeration ended because the sentinel was met, abandoning
    /// whatever still stood on the work stack — not because the stack was
    /// exhausted.
    pub sentinel_hit: bool,
    /// The dependencies the remote store reported for each scheduled id.
    pub kids: Ghost<Map<Seq<u8>, Seq<Seq<u8>>>>,
}

impl FetchPlanner {
    /// The schedule never repeats an id, schedules nothing that is already
    /// indexed as a sentinel, schedules only indexed ids, and records the
    /// supplied dependencies of exactly the scheduled ids — all of them,
    /// except the one a supply is outstanding for.
    pub open spec fn inv(self) -> bool {
        &&& self.todo.deep_view().no_duplicates()
        &&& forall|y: Seq<u8>|
            #![auto]
            self.todo.deep_view().contains(y) ==> self.objects.deep_view().contains(y) && y
                != spec_submodule_tip_marker()
        &&& self.awaiting ==> self.todo.deep_view().len() > 0
        &&& self.sentinel_hit ==> self.finished
        &&& forall|y: Seq<u8>|
            #[trigger] self.kids@.dom().contains(y) <==> (if self.awaiting {
                self.todo.deep_view().drop_last().contains(y)
            } else {
                self.todo.deep_view().contains(y)
            })
    }

    /// Every supplied dependency of a scheduled id is already present
    /// locally, scheduled itself, or still waiting on the work stack.
    pub open spec fn covered(self, repo: LocalRepo) -> bool {
        forall|y: Seq<u8>, c: Seq<u8>|
            #![auto]
            self.kids@.dom().contains(y) && self.kids@[y].contains(c) ==> repo.has_obj(c)
                || self.todo.deep_view().contains(c) || self.stack.deep_view().contains(c)
    }

    /// With the work stack exhausted the stack clause drops away: the
    /// schedule is closed on its own, which is what fetch completeness
    /// (`lemma_fetch_complete`) consumes.
    pub open spec fn schedule_closed(self, repo: LocalRepo) -> bool {
        forall|y: Seq<u8>, c: Seq<u8>|
            #![auto]
            self.kids@.dom().contains(y) && self.kids@[y].contains(c) ==> repo.has_obj(c)
                || self.todo.deep_view().contains(c)
    }

    /// Starts an enumeration for one fetch target.
    pub fn new(index: &RepoData, target: &Vec<u8>) -> (r: FetchPlanner)
        ensures
            r.inv(),
            !r.awaiting,
            !r.finished,
            !r.sentinel_hit,
            r.objects.deep_view() == index.objs(),
            r.todo.deep_view() =~= Seq::<Seq<u8>>::empty(),
            r.stack.deep_view() =~= Seq::<Seq<u8>>::empty().push(target@),
            r.kids@ == Map::<Seq<u8>, Seq<Seq<u8>>>::empty(),
            forall|rp: LocalRepo| #[trigger] r.covered(rp),
    {
        let mut stack: Vec<Vec<u8>> = Vec::new();
        stack.push(copy_bytes(target));
        let r = FetchPlanner {
            objects: copy_id_list(&index.objects),
            stack,
            todo: Vec::new(),
            awaiting: false,
            finished: false,
            sentinel_hit: false,
            kids: Ghost(Map::empty()),
        };
        proof {
            assert(r.stack.deep_view() =~~= Seq::<Seq<u8>>::empty().push(target@));
        }
        r
    }

    /// Runs the traversal until it needs remote metadata, completes, or
    /// fails. Skips ids present locally and ids already scheduled; an id
    /// absent from the index is `ObjectNotIndexed`; the sentinel ends the
    /// enumeration. An end by exhaustion leaves the schedule closed: every
    /// id that stood on the work stack, and every supplied dependency of a
    /// scheduled id, is present locally or scheduled.
    pub fn step(&mut self, repo: &LocalRepo) -> (r: Result<PlanStep, RepoError>)
        requires
            old(self).inv(),
            !old(self).awaiting,
            !old(self).finished,
            old(self).covered(*repo),
        ensures
            final(self).inv(),
            final(self).objects.deep_view() == old(self).objects.deep_view(),
            final(self).kids == old(self).kids,
            match r {
                Ok(PlanStep::Need(id)) => final(self).awaiting && !final(self).finished
                    && !final(self).sentinel_hit && final(self).todo.deep_view() == old(self).todo.deep_view().push(id@) && old(self).stack.deep_view().contains(id@)
                    && !repo.has_obj(id@) && !old(self).todo.deep_view().contains(id@)
                    && old(self).objects.deep_view().contains(id@) && id@
                    != spec_submodule_tip_marker() && final(self).covered(*repo),
                Ok(PlanStep::Done) => final(self).finished && final(self).todo.deep_view() == old(self).todo.deep_view() && (if final(self).sentinel_hit {
                    old(self).stack.deep_view().contains(spec_submodule_tip_marker())
                        && old(self).objects.deep_view().contains(spec_submodule_tip_marker())
                } else {
                    final(self).stack.deep_view().len() == 0 && final(self).schedule_closed(*repo)
                        && (forall|k: Seq<u8>|
                        #![auto]
                        old(self).stack.deep_view().contains(k) ==> repo.has_obj(k) || final(self).todo.deep_view().contains(k))
                }),
                Err(e) => e == RepoError::ObjectNotIndexed && final(self).todo.deep_view() == old(self).todo.deep_view() && exists|k: Seq<u8>|
                    #![auto]
                    old(self).stack.deep_view().contains(k) && !repo.has_obj(k)
                        && !old(self).todo.deep_view().contains(k)
                        && !old(self).objects.deep_view().contains(k),
            },
    {
        loop
            invariant
                self.inv(),
                !self.awaiting,
                !self.finished,
                !self.sentinel_hit,
                self.objects.deep_view() == old(self).objects.deep_view(),
                self.kids == old(self).kids,
                self.todo.deep_view() == old(self).todo.deep_view(),
                self.covered(*repo),
                forall|k: Seq<u8>|
                    #![auto]
                    self.stack.deep_view().contains(k) ==> old(self).stack.deep_view().contains(k),
                forall|k: Seq<u8>|
                    #![auto]
                    old(self).stack.deep_view().contains(k) ==> repo.has_obj(k)
                        || self.todo.deep_view().contains(k) || self.stack.deep_view().contains(k),
            decreases self.stack.len(),
        {
            let ghost k_pre = self.stack.deep_view();
            let id = match self.stack.pop() {
                Some(id) => id,
                None => {
                    self.finished = true;
                    proof {
                        assert(self.stack.deep_view().len() == 0);
                        assert forall|y: Seq<u8>, c: Seq<u8>| #![auto]
                            self.kids@.dom().contains(y) && self.kids@[y].contains(c) implies
                            repo.has_obj(c) || self.todo.deep_view().contains(c) by {
                            assert(!self.stack.deep_view().contains(c));
                        }
                    }
                    return Ok(PlanStep::Done);
                },
            };
            proof {
                assert(self.stack.deep_view() =~= k_pre.drop_last());
                assert(id@ == k_pre.last());
                assert(k_pre.contains(id@));
            }
            if repo.has(&id) {
                // already present locally
                proof {
                    assert forall|y: Seq<u8>, c: Seq<u8>| #![auto]
                        self.kids@.dom().contains(y) && self.kids@[y].contains(c) implies
                        repo.has_obj(c) || self.todo.deep_view().contains(c)
                            || self.stack.deep_view().contains(c) by {
                        if c != id@ && k_pre.contains(c) {
                            lemma_id_contains_drop_last(k_pre, c);
                        }
                    }
                    assert forall|k: Seq<u8>| #![auto]
                        old(self).stack.deep_view().contains(k) implies repo.has_obj(k)
                        || self.todo.deep_view().contains(k)
                        || self.stack.deep_view().contains(k) by {
                        if k != id@ && k_pre.contains(k) {
                            lemma_id_contains_drop_last(k_pre, k);
                        }
                    }
                }
                continue ;
            }
            if id_list_contains(&self.todo, &id) {
                // already scheduled in this enumeration
                proof {
                    assert forall|y: Seq<u8>, c: Seq<u8>| #![auto]
                        self.kids@.dom().contains(y) && self.kids@[y].contains(c) implies
                        repo.has_obj(c) || self.todo.deep_view().contains(c)
                            || self.stack.deep_view().contains(c) by {
                        if c != id@ && k_pre.contains(c) {
                            lemma_id_contains_drop_last(k_pre, c);
                        }
                    }
                    assert forall|k: Seq<u8>| #![auto]
                        old(self).stack.deep_view().contains(k) implies repo.has_obj(k)
                        || self.todo.deep_view().contains(k)
                        || self.stack.deep_view().contains(k) by {
                        if k != id@ && k_pre.contains(k) {
                            lemma_id_contains_drop_last(k_pre, k);
                        }
                    }
                }
                continue ;
            }
            if !id_list_contains(&self.objects, &id) {
                proof {
                    assert(old(self).stack.deep_view().contains(id@) && !repo.has_obj(id@)
                        && !old(self).todo.deep_view().contains(id@)
                        && !old(self).objects.deep_view().contains(id@));
                }
                return Err(RepoError::ObjectNotIndexed);
            }
            let marker = submodule_tip_marker();
            if bytes_eq(&id, &marker) {
                // the submodule sentinel ends the whole enumeration,
                // abandoning whatever is still on the stack
                self.finished = true;
                self.sentinel_hit = true;
                proof {
                    assert(old(self).stack.deep_view().contains(spec_submodule_tip_marker()));
                    assert(old(self).objects.deep_view().contains(spec_submodule_tip_marker()));
                }
                return Ok(PlanStep::Done);
            }
            let ghost t_pre = self.todo.deep_view();
            push_id(&mut self.todo, &id);
            self.awaiting = true;
            proof {
                assert(self.todo.deep_view() == t_pre.push(id@));
                assert forall|a: int, b: int|
                    0 <= a < b < self.todo.deep_view().len() implies self.todo.deep_view()[a]
                    != self.todo.deep_view()[b] by {
                    if b == t_pre.len() {
                        if t_pre[a] == id@ {
                            assert(t_pre.contains(id@));
                        }
                    }
                }
                assert forall|y: Seq<u8>| #![auto] self.todo.deep_view().contains(y) implies
                    self.objects.deep_view().contains(y) && y != spec_submodule_tip_marker() by {
                    let k = choose|k: int|
                        0 <= k < self.todo.deep_view().len() && self.todo.deep_view()[k] == y;
                    if k < t_pre.len() {
                        assert(t_pre[k] == y);
                        assert(t_pre.contains(y));
                    }
                }
                assert(self.todo.deep_view().drop_last() =~= t_pre);
                assert forall|y: Seq<u8>, c: Seq<u8>| #![auto]
                    self.kids@.dom().contains(y) && self.kids@[y].contains(c) implies
                    repo.has_obj(c) || self.todo.deep_view().contains(c)
                        || self.stack.deep_view().contains(c) by {
                    lemma_id_contains_push(t_pre, id@, c);
                    if c != id@ && k_pre.contains(c) {
                        lemma_id_contains_drop_last(k_pre, c);
                    }
                }
            }
            return Ok(PlanStep::Need(id));
        }
    }

    /// Hands the planner the metadata it asked for: the object's
    /// dependencies join the work stack, and are recorded as the supplied
    /// dependencies of the id the request was outstanding for.
    pub fn supply(&mut self, obj: &GitObject)
        requires
            old(self).inv(),
            old(self).awaiting,
        ensures
            final(self).inv(),
            !final(self).awaiting,
            final(self).finished == old(self).finished,
            final(self).sentinel_hit == old(self).sentinel_hit,
            final(self).objects.deep_view() == old(self).objects.deep_view(),
            final(self).todo.deep_view() == old(self).todo.deep_view(),
            final(self).stack.deep_view() == old(self).stack.deep_view() + meta_children(
                obj@.metadata,
            ),
            final(self).kids@ == old(self).kids@.insert(
                old(self).todo.deep_view().last(),
                meta_children(obj@.metadata),
            ),
            forall|rp: LocalRepo|
                #![auto]
                old(self).covered(rp) ==> final(self).covered(rp),
    {
        let ghost k0 = self.stack.deep_view();
        match &obj.metadata {
            GitObjectMetadata::Commit { parent_git_hashes, tree_git_hash } => {
                push_id(&mut self.stack, tree_git_hash);
                let ghost k1 = self.stack.deep_view();
                proof {
                    assert(self.stack.deep_view() =~= k1 + parent_git_hashes.deep_view().subrange(
                        0,
                        0,
                    ));
                }
                let mut j: usize = 0;
                while j < parent_git_hashes.len()
                    invariant
                        0 <= j <= parent_git_hashes.len(),
                        self.stack.deep_view() == k1 + parent_git_hashes.deep_view().subrange(
                            0,
                            j as int,
                        ),
                        self.objects == old(self).objects,
                        self.todo == old(self).todo,
                        self.awaiting == old(self).awaiting,
                        self.finished == old(self).finished,
                        self.sentinel_hit == old(self).sentinel_hit,
                        self.kids == old(self).kids,
                        k1 == k0.push(obj@.metadata->Commit_tree_git_hash),
                    decreases parent_git_hashes.len() - j,
                {
                    push_id(&mut self.stack, &parent_git_hashes[j]);
                    proof {
                        assert(parent_git_hashes.deep_view()[j as int] == parent_git_hashes[j as int]@);
                        assert(self.stack.deep_view() =~= k1
                            + parent_git_hashes.deep_view().subrange(0, j + 1 as int));
                    }
                    j += 1;
                }
                proof {
                    let pids = parent_git_hashes.deep_view();
                    assert(pids.subrange(0, pids.len() as int) =~= pids);
                    assert(self.stack.deep_view() =~= k0 + meta_children(obj@.metadata));
                }
            },
            GitObjectMetadata::Tag { target_git_hash } => {
                push_id(&mut self.stack, target_git_hash);
                proof {
                    assert(self.stack.deep_view() =~= k0 + meta_children(obj@.metadata));
                }
            },
            GitObjectMetadata::Tree { entry_git_hashes } => {
                proof {
                    assert(self.stack.deep_view() =~= k0 + entry_git_hashes.deep_view().subrange(
                        0,
                        0,
                    ));
                }
                let mut j: usize = 0;
                while j < entry_git_hashes.len()
                    invariant
                        0 <= j <= entry_git_hashes.len(),
                        self.stack.deep_view() == k0 + entry_git_hashes.deep_view().subrange(
                            0,
                            j as int,
                        ),
                        self.objects == old(self).objects,
                        self.todo == old(self).todo,
                        self.awaiting == old(self).awaiting,
                        self.finished == old(self).finished,
                        self.sentinel_hit == old(self).sentinel_hit,
                        self.kids == old(self).kids,
                    decreases entry_git_hashes.len() - j,
                {
                    push_id(&mut self.stack, &entry_git_hashes[j]);
                    proof {
                        assert(entry_git_hashes.deep_view()[j as int] == entry_git_hashes[j as int]@);
                        assert(self.stack.deep_view() =~= k0
                            + entry_git_hashes.deep_view().subrange(0, j + 1 as int));
                    }
                    j += 1;
                }
                proof {
                    let es = entry_git_hashes.deep_view();
                    assert(es.subrange(0, es.len() as int) =~= es);
                }
            },
            GitObjectMetadata::Blob => {
                proof {
                    assert(self.stack.deep_view() =~= k0 + meta_children(obj@.metadata));
                }
            },
        }
        let ghost aw = self.todo.deep_view().last();
        let ghost kids_pre = self.kids@;
        self.kids = Ghost(kids_pre.insert(aw, meta_children(obj@.metadata)));
        self.awaiting = false;
        proof {
            let t = self.todo.deep_view();
            assert(t =~= t.drop_last().push(t.last()));
            assert(self.kids@.dom() =~= kids_pre.dom().insert(aw));
            assert forall|y: Seq<u8>| #[trigger]
                self.kids@.dom().contains(y) <==> t.contains(y) by {
                assert(kids_pre.dom().contains(y) <==> t.drop_last().contains(y));
                lemma_id_contains_push(t.drop_last(), t.last(), y);
            }
            assert forall|rp: LocalRepo| #![auto]
                old(self).covered(rp) implies self.covered(rp) by {
                assert forall|y: Seq<u8>, c: Seq<u8>| #![auto]
                    self.kids@.dom().contains(y) && self.kids@[y].contains(c) implies rp.has_obj(c)
                    || self.todo.deep_view().contains(c) || self.stack.deep_view().contains(c) by {
                    if y == aw {
                        assert(self.kids@[y] == meta_children(obj@.metadata));
                        lemma_id_contains_concat(k0, meta_children(obj@.metadata), c);
                    } else {
                        assert(kids_pre.dom().contains(y) && kids_pre[y].contains(c));
                        if k0.contains(c) {
                            lemma_id_contains_concat(k0, meta_children(obj@.metadata), c);
                        }
                    }
                }
            }
        }
    }

    /// The completed schedule.
    pub fn into_schedule(self) -> (r: Vec<Vec<u8>>)
        requires
            self.finished,
        ensures
            r.deep_view() == self.todo.deep_view(),
    {
        self.todo
    }
}

/// The reference update after a successful fetch: a commit tip sets the
/// reference (unless it is a lightweight tag, which the local system
/// manages itself), a tag tip sets nothing, any other kind is refused.
/// Returns whether the reference was set.
pub fn fetch_ref_update(repo: &mut LocalRepo, git_hash: &Vec<u8>, ref_name: &Vec<u8>) -> (r: Result<
    bool,
    RepoError,
>)
    requires
        old(repo).wf(),
    ensures
        final(repo).wf(),
        final(repo).objs() == old(repo).objs(),
        match r {
            Ok(true) => old(repo).has_obj(git_hash@) && old(repo).obj_at(git_hash@).kind
                == ObjectKind::Commit && !(ref_name@.len() >= spec_tags_prefix().len()
                && ref_name@.subrange(0, spec_tags_prefix().len() as int) == spec_tags_prefix())
                && refs_has(final(repo).refs.deep_view(), ref_name@) && refs_at(
                final(repo).refs.deep_view(),
                ref_name@,
            ) == git_hash@ && refs_same_except(
                old(repo).refs.deep_view(),
                final(repo).refs.deep_view(),
                ref_name@,
            ),
            Ok(false) => final(repo).refs.deep_view() == old(repo).refs.deep_view() && old(repo).has_obj(git_hash@) && (old(repo).obj_at(git_hash@).kind == ObjectKind::Tag || (old(repo).obj_at(git_hash@).kind == ObjectKind::Commit && ref_name@.len()
                >= spec_tags_prefix().len() && ref_name@.subrange(
                0,
                spec_tags_prefix().len() as int,
            ) == spec_tags_prefix())),
            Err(RepoError::ObjectReadError) => final(repo).refs.deep_view() == old(repo).refs.deep_view() && !old(repo).has_obj(git_hash@),
            Err(RepoError::UnsupportedKind) => final(repo).refs.deep_view() == old(repo).refs.deep_view() && old(repo).has_obj(git_hash@) && old(repo).obj_at(
                git_hash@,
            ).kind != ObjectKind::Commit && old(repo).obj_at(git_hash@).kind != ObjectKind::Tag,
            Err(_) => false,
        },
{
    let kind = match repo.get(git_hash) {
        Some(o) => o.kind,
        None => {
            return Err(RepoError::ObjectReadError);
        },
    };
    match kind {
        ObjectKind::Commit => {
            let prefix = tags_prefix();
            if bytes_starts_with(ref_name, &prefix) {
                // a lightweight tag: the local system sets it itself
                Ok(false)
            } else {
                repo.update_ref(ref_name, git_hash);
                Ok(true)
            }
        },
        ObjectKind::Tag => Ok(false),
        _ => Err(RepoError::UnsupportedKind),
    }
}

} // verus!
