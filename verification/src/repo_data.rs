//! The remote-visible index and the push enumeration.
//!
//! `RepoData` is the authoritative record of the remote store: a reference
//! map and the append-only list of object ids known to exist remotely (plus
//! opaque submodule-tip sentinels). `enumerate_for_push` computes, by an
//! explicit-stack traversal of the local object graph, the minimal set of
//! objects a push must upload, and the set of submodule tips met on the way.
//! Its contract pins the schedule down exactly: an id is scheduled if and
//! only if it is reachable from the root along dependency edges that never
//! touch an id already present in the index.

use vstd::prelude::*;

use crate::errors::RepoError;
use crate::ids::{copy_bytes, id_list_contains, push_id, submodule_tip_marker, spec_submodule_tip_marker, RefEntry, RefEntryView};
use crate::local_repo::LocalRepo;
use crate::objects::{is_child, is_submodule_entry, LocalObject, ObjectKind, ObjectLinks, TreeEntry, TreeEntryView};
use crate::refs::{refs_at, refs_has, refs_names_unique, refs_remove, refs_same_except, refs_set};

verus! {

/// A path through the local graph whose nodes all avoid the index:
/// consecutive nodes are linked by dependency edges (submodule boundaries
/// excluded), and no node on the path is already indexed.
pub open spec fn is_push_path(repo: LocalRepo, index: Seq<Seq<u8>>, p: Seq<Seq<u8>>) -> bool {
    &&& p.len() > 0
    &&& forall|i: int| 0 <= i < p.len() ==> !index.contains(#[trigger] p[i])
    &&& forall|i: int|
        0 <= i < p.len() - 1 ==> repo.has_obj(#[trigger] p[i]) && is_child(
            repo.obj_at(p[i]),
            p[i + 1],
        )
}

/// `id` must be realized to push `root`: some dependency path from `root`
/// reaches it without ever crossing an already-indexed id.
pub open spec fn push_reach(repo: LocalRepo, index: Seq<Seq<u8>>, root: Seq<u8>, id: Seq<u8>) -> bool {
    exists|p: Seq<Seq<u8>>|
        (#[trigger] is_push_path(repo, index, p)) && p.first() == root && p.last() == id
}

proof fn lemma_reach_self(repo: LocalRepo, index: Seq<Seq<u8>>, root: Seq<u8>)
    requires
        !index.contains(root),
    ensures
        push_reach(repo, index, root, root),
{
    let p = seq![root];
    assert(p[0] == root);
    assert(is_push_path(repo, index, p));
    assert(p.first() == root && p.last() == root);
}

proof fn lemma_reach_extend(
    repo: LocalRepo,
    index: Seq<Seq<u8>>,
    root: Seq<u8>,
    n: Seq<u8>,
    c: Seq<u8>,
)
    requires
        push_reach(repo, index, root, n),
        repo.has_obj(n),
        is_child(repo.obj_at(n), c),
        !index.contains(c),
    ensures
        push_reach(repo, index, root, c),
{
    let p = choose|p: Seq<Seq<u8>>|
        (#[trigger] is_push_path(repo, index, p)) && p.first() == root && p.last() == n;
    let q = p.push(c);
    assert forall|i: int| 0 <= i < q.len() implies !index.contains(#[trigger] q[i]) by {
        if i < p.len() {
            assert(q[i] == p[i]);
        } else {
            assert(q[i] == c);
        }
    }
    assert forall|i: int| 0 <= i < q.len() - 1 implies repo.has_obj(#[trigger] q[i]) && is_child(
        repo.obj_at(q[i]),
        q[i + 1],
    ) by {
        if i < p.len() - 1 {
            assert(q[i] == p[i]);
            assert(q[i + 1] == p[i + 1]);
        } else {
            assert(q[i] == p[i]);
            assert(p[i] == p.last());
            assert(q[i + 1] == c);
        }
    }
    assert(is_push_path(repo, index, q));
    assert(q.first() == root && q.last() == c);
}

proof fn lemma_path_tail(repo: LocalRepo, index: Seq<Seq<u8>>, p: Seq<Seq<u8>>)
    requires
        is_push_path(repo, index, p),
        p.len() >= 2,
    ensures
        is_push_path(repo, index, p.subrange(1, p.len() as int)),
        p.subrange(1, p.len() as int).first() == p[1],
        p.subrange(1, p.len() as int).last() == p.last(),
{
    let q = p.subrange(1, p.len() as int);
    assert forall|i: int| 0 <= i < q.len() implies !index.contains(#[trigger] q[i]) by {
        assert(q[i] == p[i + 1]);
    }
    assert forall|i: int| 0 <= i < q.len() - 1 implies repo.has_obj(#[trigger] q[i]) && is_child(
        repo.obj_at(q[i]),
        q[i + 1],
    ) by {
        assert(q[i] == p[i + 1]);
        assert(q[i + 1] == p[i + 2]);
    }
}

proof fn lemma_reach_unfold(repo: LocalRepo, index: Seq<Seq<u8>>, n: Seq<u8>, id: Seq<u8>)
    requires
        push_reach(repo, index, n, id),
    ensures
        id == n || (repo.has_obj(n) && exists|c: Seq<u8>|
            #![auto]
            is_child(repo.obj_at(n), c) && !index.contains(c) && push_reach(repo, index, c, id)),
{
    let p = choose|p: Seq<Seq<u8>>|
        (#[trigger] is_push_path(repo, index, p)) && p.first() == n && p.last() == id;
    if p.len() == 1 {
        assert(p.last() == p.first());
    } else {
        lemma_path_tail(repo, index, p);
        let q = p.subrange(1, p.len() as int);
        let c = p[1];
        assert(repo.has_obj(p[0]) && is_child(repo.obj_at(p[0]), p[1]));
        assert(p[0] == n);
        assert(!index.contains(c));
        assert(push_reach(repo, index, c, id));
    }
}

/// Every dependency edge out of the covered set lands back in the covered
/// set or on the work stack; so a path that starts covered ends covered or
/// reaches the stack.
proof fn lemma_covered_walk(
    repo: LocalRepo,
    index: Seq<Seq<u8>>,
    s_set: Seq<Seq<u8>>,
    k_set: Seq<Seq<u8>>,
    p: Seq<Seq<u8>>,
)
    requires
        is_push_path(repo, index, p),
        s_set.contains(p.first()),
        forall|s: Seq<u8>, c: Seq<u8>|
            #![auto]
            s_set.contains(s) && is_child(repo.obj_at(s), c) && !index.contains(c) ==> s_set.contains(c)
                || k_set.contains(c),
    ensures
        s_set.contains(p.last()) || exists|k: Seq<u8>|
            #![auto]
            k_set.contains(k) && push_reach(repo, index, k, p.last()),
    decreases p.len(),
{
    if p.len() == 1 {
        assert(p.last() == p.first());
    } else {
        lemma_path_tail(repo, index, p);
        let q = p.subrange(1, p.len() as int);
        let c = p[1];
        assert(repo.has_obj(p[0]) && is_child(repo.obj_at(p[0]), p[1]));
        assert(p[0] == p.first());
        assert(!index.contains(c));
        if s_set.contains(c) {
            lemma_covered_walk(repo, index, s_set, k_set, q);
        } else {
            assert(k_set.contains(c));
            assert(push_reach(repo, index, c, p.last())) by {
                assert(is_push_path(repo, index, q) && q.first() == c && q.last() == p.last());
            }
        }
    }
}

proof fn lemma_contains_drop_last(s: Seq<Seq<u8>>, x: Seq<u8>)
    requires
        s.contains(x),
        s.len() > 0,
        x != s.last(),
    ensures
        s.drop_last().contains(x),
{
    let i = choose|i: int| 0 <= i < s.len() && s[i] == x;
    assert(i != s.len() - 1);
    assert(s.drop_last()[i] == x);
}

proof fn lemma_contains_push(s: Seq<Seq<u8>>, x: Seq<u8>, y: Seq<u8>)
    ensures
        s.push(x).contains(y) <==> (s.contains(y) || y == x),
{
    if s.push(x).contains(y) {
        let i = choose|i: int| 0 <= i < s.push(x).len() && s.push(x)[i] == y;
        if i < s.len() {
            assert(s[i] == y);
        }
    }
    if s.contains(y) {
        let i = choose|i: int| 0 <= i < s.len() && s[i] == y;
        assert(s.push(x)[i] == y);
    }
    if y == x {
        assert(s.push(x)[s.len() as int] == y);
    }
}

proof fn lemma_contains_concat(a: Seq<Seq<u8>>, b: Seq<Seq<u8>>, y: Seq<u8>)
    ensures
        (a + b).contains(y) <==> (a.contains(y) || b.contains(y)),
{
    if (a + b).contains(y) {
        let i = choose|i: int| 0 <= i < (a + b).len() && (a + b)[i] == y;
        if i < a.len() {
            assert(a[i] == y);
        } else {
            assert(b[i - a.len()] == y);
        }
    }
    if a.contains(y) {
        let i = choose|i: int| 0 <= i < a.len() && a[i] == y;
        assert((a + b)[i] == y);
    }
    if b.contains(y) {
        let i = choose|i: int| 0 <= i < b.len() && b[i] == y;
        assert((a + b)[a.len() + i] == y);
    }
}

proof fn lemma_distinct_subset_len(s: Seq<Seq<u8>>, t: Seq<Seq<u8>>)
    requires
        s.no_duplicates(),
        t.no_duplicates(),
        forall|x: Seq<u8>| s.contains(x) ==> t.contains(x),
    ensures
        s.len() <= t.len(),
{
    broadcast use vstd::seq_lib::group_seq_properties;

    s.unique_seq_to_set();
    t.unique_seq_to_set();
    assert forall|x: Seq<u8>| s.to_set().contains(x) implies t.to_set().contains(x) by {
        assert(s.contains(x));
        assert(t.contains(x));
    }
    vstd::set_lib::lemma_len_subset(s.to_set(), t.to_set());
}

/// The traversal's running invariants, named so that each step of the
/// proof can speak of them whole.
///
/// Every scheduled id is a correct answer: present locally, of a supported
/// kind, not yet indexed, and needed for `root`.
pub open spec fn sched_ok(
    rp: LocalRepo,
    index: Seq<Seq<u8>>,
    root: Seq<u8>,
    sview: Seq<Seq<u8>>,
) -> bool {
    &&& sview.no_duplicates()
    &&& forall|id: Seq<u8>|
        #[trigger] sview.contains(id) ==> rp.has_obj(id) && rp.obj_at(id).kind
            != ObjectKind::Other && !index.contains(id) && push_reach(rp, index, root, id)
}

/// Every unindexed id on the work stack is needed for `root`.
pub open spec fn stack_ok(
    rp: LocalRepo,
    index: Seq<Seq<u8>>,
    root: Seq<u8>,
    kview: Seq<Seq<u8>>,
) -> bool {
    forall|k: Seq<u8>|
        #![auto]
        kview.contains(k) && !index.contains(k) ==> push_reach(rp, index, root, k)
}

/// Every dependency edge out of the scheduled set lands on an indexed id,
/// a scheduled id, or the work stack.
pub open spec fn edges_covered(
    rp: LocalRepo,
    index: Seq<Seq<u8>>,
    sview: Seq<Seq<u8>>,
    kview: Seq<Seq<u8>>,
) -> bool {
    forall|s: Seq<u8>, c: Seq<u8>|
        #![auto]
        sview.contains(s) && is_child(rp.obj_at(s), c) && !index.contains(c) ==> sview.contains(c)
            || kview.contains(c)
}

/// Everything needed for `root` is scheduled already or below some work
/// stack entry.
pub open spec fn complete_for(
    rp: LocalRepo,
    index: Seq<Seq<u8>>,
    root: Seq<u8>,
    sview: Seq<Seq<u8>>,
    kview: Seq<Seq<u8>>,
) -> bool {
    forall|id: Seq<u8>|
        #![auto]
        push_reach(rp, index, root, id) ==> sview.contains(id) || exists|k: Seq<u8>|
            #![auto]
            kview.contains(k) && push_reach(rp, index, k, id)
}

/// The submodule set mirrors exactly the submodule references of the
/// scheduled trees.
pub open spec fn subs_ok(rp: LocalRepo, sview: Seq<Seq<u8>>, mview: Seq<Seq<u8>>) -> bool {
    &&& mview.no_duplicates()
    &&& forall|m: Seq<u8>|
        #![auto]
        mview.contains(m) ==> exists|t: Seq<u8>|
            #![auto]
            sview.contains(t) && is_submodule_entry(rp.obj_at(t), m)
    &&& forall|t: Seq<u8>, m: Seq<u8>|
        #![auto]
        sview.contains(t) && is_submodule_entry(rp.obj_at(t), m) ==> mview.contains(m)
}

/// Popping an id that is already indexed or already scheduled keeps the
/// traversal invariants.
proof fn lemma_skip_pop(
    rp: LocalRepo,
    index: Seq<Seq<u8>>,
    root: Seq<u8>,
    sview: Seq<Seq<u8>>,
    k_pre: Seq<Seq<u8>>,
)
    requires
        k_pre.len() > 0,
        index.contains(k_pre.last()) || sview.contains(k_pre.last()),
        edges_covered(rp, index, sview, k_pre),
        complete_for(rp, index, root, sview, k_pre),
    ensures
        edges_covered(rp, index, sview, k_pre.drop_last()),
        complete_for(rp, index, root, sview, k_pre.drop_last()),
{
    let nid = k_pre.last();
    let k_popped = k_pre.drop_last();
    assert forall|s: Seq<u8>, c: Seq<u8>| #![auto]
        sview.contains(s) && is_child(rp.obj_at(s), c) && !index.contains(c) implies (sview.contains(
        c,
    ) || k_popped.contains(c)) by {
        if !sview.contains(c) {
            assert(k_pre.contains(c));
            assert(c != nid);
            lemma_contains_drop_last(k_pre, c);
        }
    }
    assert forall|idr: Seq<u8>| #![auto] push_reach(rp, index, root, idr) implies (sview.contains(
        idr,
    ) || exists|k: Seq<u8>| #![auto] k_popped.contains(k) && push_reach(rp, index, k, idr)) by {
        if !sview.contains(idr) {
            let k = choose|k: Seq<u8>| #![auto] k_pre.contains(k) && push_reach(rp, index, k, idr);
            if k == nid {
                let p = choose|p: Seq<Seq<u8>>|
                    (#[trigger] is_push_path(rp, index, p)) && p.first() == k && p.last() == idr;
                assert(!index.contains(p[0]));
                assert(p[0] == p.first());
                assert(sview.contains(p.first()));
                lemma_covered_walk(rp, index, sview, k_popped, p);
            } else {
                lemma_contains_drop_last(k_pre, k);
            }
        }
    }
}

/// Scheduling a fresh, present, supported, unindexed and needed id keeps
/// the schedule sound, and the schedule can never outgrow the local store.
proof fn lemma_sched_push(
    rp: LocalRepo,
    index: Seq<Seq<u8>>,
    root: Seq<u8>,
    s_pre: Seq<Seq<u8>>,
    nid: Seq<u8>,
)
    requires
        rp.wf(),
        sched_ok(rp, index, root, s_pre),
        !s_pre.contains(nid),
        rp.has_obj(nid),
        rp.obj_at(nid).kind != ObjectKind::Other,
        !index.contains(nid),
        push_reach(rp, index, root, nid),
    ensures
        sched_ok(rp, index, root, s_pre.push(nid)),
        s_pre.push(nid).len() <= rp.objs().len(),
{
    let s_new = s_pre.push(nid);
    assert forall|a: int, b: int| 0 <= a < b < s_new.len() implies s_new[a] != s_new[b] by {
        if b == s_pre.len() {
            if s_pre[a] == nid {
                assert(s_pre.contains(nid));
            }
        }
    }
    assert(s_new.no_duplicates());
    assert forall|id: Seq<u8>| #[trigger] s_new.contains(id) implies rp.has_obj(id) && rp.obj_at(
        id,
    ).kind != ObjectKind::Other && !index.contains(id) && push_reach(rp, index, root, id) by {
        lemma_contains_push(s_pre, nid, id);
    }
    let repo_ids = Seq::new(rp.objs().len(), |i: int| rp.objs()[i].id);
    assert forall|a: int, b: int| 0 <= a < b < repo_ids.len() implies repo_ids[a] != repo_ids[b] by {
        assert(rp.objs()[a].id != rp.objs()[b].id);
    }
    assert(repo_ids.no_duplicates());
    assert forall|y: Seq<u8>| #![auto] s_new.contains(y) implies repo_ids.contains(y) by {
        assert(rp.has_obj(y));
        let k = choose|k: int| 0 <= k < rp.objs().len() && (#[trigger] rp.objs()[k]).id == y;
        assert(repo_ids[k] == y);
    }
    lemma_distinct_subset_len(s_new, repo_ids);
}

/// Expanding the popped object re-establishes the traversal invariants:
/// the popped id joins the schedule, its children join the stack.
proof fn lemma_process_pop(
    rp: LocalRepo,
    index: Seq<Seq<u8>>,
    root: Seq<u8>,
    s_pre: Seq<Seq<u8>>,
    k_pre: Seq<Seq<u8>>,
    k_post: Seq<Seq<u8>>,
    nid: Seq<u8>,
)
    requires
        k_pre.len() > 0,
        k_pre.last() == nid,
        !index.contains(nid),
        !s_pre.contains(nid),
        rp.has_obj(nid),
        stack_ok(rp, index, root, k_pre),
        edges_covered(rp, index, s_pre, k_pre),
        complete_for(rp, index, root, s_pre, k_pre),
        forall|y: Seq<u8>|
            #![auto]
            k_post.contains(y) ==> k_pre.drop_last().contains(y) || is_child(rp.obj_at(nid), y),
        forall|c: Seq<u8>| #![auto] is_child(rp.obj_at(nid), c) ==> k_post.contains(c),
        forall|y: Seq<u8>| #![auto] k_pre.drop_last().contains(y) ==> k_post.contains(y),
    ensures
        stack_ok(rp, index, root, k_post),
        edges_covered(rp, index, s_pre.push(nid), k_post),
        complete_for(rp, index, root, s_pre.push(nid), k_post),
{
    let k_popped = k_pre.drop_last();
    let s_new = s_pre.push(nid);
    assert(k_pre.contains(nid));
    assert(push_reach(rp, index, root, nid));
    assert(s_new.contains(nid)) by {
        lemma_contains_push(s_pre, nid, nid);
    }
    assert forall|k: Seq<u8>| #![auto] k_post.contains(k) && !index.contains(k) implies push_reach(
        rp,
        index,
        root,
        k,
    ) by {
        if !k_popped.contains(k) {
            lemma_reach_extend(rp, index, root, nid, k);
        } else {
            let i = choose|i: int| 0 <= i < k_popped.len() && k_popped[i] == k;
            assert(k_pre[i] == k);
            assert(k_pre.contains(k));
        }
    }
    assert forall|s: Seq<u8>, c: Seq<u8>| #![auto]
        s_new.contains(s) && is_child(rp.obj_at(s), c) && !index.contains(c) implies (
    s_new.contains(c) || k_post.contains(c)) by {
        lemma_contains_push(s_pre, nid, s);
        if s_pre.contains(s) {
            lemma_contains_push(s_pre, nid, c);
            if !s_new.contains(c) && !k_pre.drop_last().contains(c) {
                assert(k_pre.contains(c));
                assert(c != k_pre.last());
                lemma_contains_drop_last(k_pre, c);
            }
        } else {
            assert(s == nid);
        }
    }
    assert forall|idr: Seq<u8>| #![auto] push_reach(rp, index, root, idr) implies (s_new.contains(
        idr,
    ) || exists|k: Seq<u8>| #![auto] k_post.contains(k) && push_reach(rp, index, k, idr)) by {
        lemma_contains_push(s_pre, nid, idr);
        if !s_new.contains(idr) {
            assert(exists|k: Seq<u8>| #![auto] k_pre.contains(k) && push_reach(rp, index, k, idr));
            let k = choose|k: Seq<u8>| #![auto] k_pre.contains(k) && push_reach(rp, index, k, idr);
            if k == nid {
                lemma_reach_unfold(rp, index, nid, idr);
                assert(idr != nid);
                let c = choose|c: Seq<u8>|
                    #![auto]
                    is_child(rp.obj_at(nid), c) && !index.contains(c) && push_reach(
                        rp,
                        index,
                        c,
                        idr,
                    );
                assert(k_post.contains(c));
                assert(k_post.contains(c) && push_reach(rp, index, c, idr));
            } else {
                lemma_contains_drop_last(k_pre, k);
                assert(k_post.contains(k));
                assert(k_post.contains(k) && push_reach(rp, index, k, idr));
            }
        }
    }
}

/// The submodule set, extended with exactly the submodule references of
/// the newly scheduled object, mirrors the grown schedule.
proof fn lemma_subs_after(
    rp: LocalRepo,
    s_pre: Seq<Seq<u8>>,
    nid: Seq<u8>,
    m_pre: Seq<Seq<u8>>,
    m_post: Seq<Seq<u8>>,
)
    requires
        subs_ok(rp, s_pre, m_pre),
        m_post.no_duplicates(),
        forall|m: Seq<u8>|
            #![auto]
            m_post.contains(m) <==> (m_pre.contains(m) || is_submodule_entry(rp.obj_at(nid), m)),
    ensures
        subs_ok(rp, s_pre.push(nid), m_post),
{
    let s_new = s_pre.push(nid);
    assert(s_new.contains(nid)) by {
        lemma_contains_push(s_pre, nid, nid);
    }
    assert forall|m: Seq<u8>| #![auto] m_post.contains(m) implies exists|t: Seq<u8>|
        #![auto]
        s_new.contains(t) && is_submodule_entry(rp.obj_at(t), m) by {
        if m_pre.contains(m) {
            let t = choose|t: Seq<u8>|
                #![auto]
                s_pre.contains(t) && is_submodule_entry(rp.obj_at(t), m);
            lemma_contains_push(s_pre, nid, t);
            assert(s_new.contains(t) && is_submodule_entry(rp.obj_at(t), m));
        } else {
            assert(s_new.contains(nid) && is_submodule_entry(rp.obj_at(nid), m));
        }
    }
    assert forall|t: Seq<u8>, m: Seq<u8>| #![auto]
        s_new.contains(t) && is_submodule_entry(rp.obj_at(t), m) implies m_post.contains(m) by {
        lemma_contains_push(s_pre, nid, t);
    }
}

/// What a correct push enumeration yields for `root` against the local
/// graph `repo` and the already-indexed id list `index`:
/// the schedule holds exactly the ids reachable from the root without
/// crossing the index, each exactly once, all present locally and of a
/// supported kind; the submodule set holds exactly the ids the scheduled
/// trees record as embedded submodule references, each exactly once.
pub open spec fn push_plan_correct(
    schedule: Seq<Seq<u8>>,
    submodules: Seq<Seq<u8>>,
    repo: LocalRepo,
    index: Seq<Seq<u8>>,
    root: Seq<u8>,
) -> bool {
    &&& schedule.no_duplicates()
    &&& forall|id: Seq<u8>|
        #[trigger] schedule.contains(id) ==> repo.has_obj(id) && repo.obj_at(id).kind
            != ObjectKind::Other && !index.contains(id)
    &&& forall|id: Seq<u8>| #![auto] schedule.contains(id) <==> push_reach(repo, index, root, id)
    &&& submodules.no_duplicates()
    &&& forall|id: Seq<u8>|
        #![auto]
        submodules.contains(id) <==> exists|t: Seq<u8>|
            #![auto]
            schedule.contains(t) && is_submodule_entry(repo.obj_at(t), id)
}

/// What a push must upload, and the submodule tips it met.
#[derive(Clone, Debug)]
pub struct PushPlan {
    pub schedule: Vec<Vec<u8>>,
    pub submodules: Vec<Vec<u8>>,
}

/// Law: the push enumeration is a function of the index, the local graph
/// and the root alone — two runs against unchanged state schedule the same
/// ids and record the same submodule tips.
pub proof fn lemma_enumerate_idempotent(
    s1: Seq<Seq<u8>>,
    m1: Seq<Seq<u8>>,
    s2: Seq<Seq<u8>>,
    m2: Seq<Seq<u8>>,
    repo: LocalRepo,
    index: Seq<Seq<u8>>,
    root: Seq<u8>,
)
    requires
        push_plan_correct(s1, m1, repo, index, root),
        push_plan_correct(s2, m2, repo, index, root),
    ensures
        forall|id: Seq<u8>| #![auto] s1.contains(id) == s2.contains(id),
        forall|id: Seq<u8>| #![auto] m1.contains(id) == m2.contains(id),
{
    assert forall|id: Seq<u8>| #![auto] s1.contains(id) == s2.contains(id) by {
        assert(s1.contains(id) <==> push_reach(repo, index, root, id));
        assert(s2.contains(id) <==> push_reach(repo, index, root, id));
    }
    assert forall|id: Seq<u8>| #![auto] m1.contains(id) == m2.contains(id) by {
        if m1.contains(id) {
            let t = choose|t: Seq<u8>|
                #![auto]
                s1.contains(t) && is_submodule_entry(repo.obj_at(t), id);
            assert(s2.contains(t));
            assert(m2.contains(id));
        }
        if m2.contains(id) {
            let t = choose|t: Seq<u8>|
                #![auto]
                s2.contains(t) && is_submodule_entry(repo.obj_at(t), id);
            assert(s1.contains(t));
            assert(m1.contains(id));
        }
    }
}

/// Law: an id already listed in the index is never scheduled for upload,
/// and no id is scheduled twice.
pub proof fn lemma_push_dedup(
    schedule: Seq<Seq<u8>>,
    submodules: Seq<Seq<u8>>,
    repo: LocalRepo,
    index: Seq<Seq<u8>>,
    root: Seq<u8>,
)
    requires
        push_plan_correct(schedule, submodules, repo, index, root),
    ensures
        schedule.no_duplicates(),
        forall|id: Seq<u8>| #![auto] index.contains(id) ==> !schedule.contains(id),
{
}

/// A dependency path through the local graph: consecutive ids are linked
/// by dependency edges, submodule boundaries excluded.
pub open spec fn is_dep_path(repo: LocalRepo, p: Seq<Seq<u8>>) -> bool {
    &&& p.len() > 0
    &&& forall|i: int|
        0 <= i < p.len() - 1 ==> repo.has_obj(#[trigger] p[i]) && is_child(
            repo.obj_at(p[i]),
            p[i + 1],
        )
}

/// `id` is reachable from `root` through locally present objects,
/// submodule boundaries excluded.
pub open spec fn dep_reach(repo: LocalRepo, root: Seq<u8>, id: Seq<u8>) -> bool {
    exists|p: Seq<Seq<u8>>|
        (#[trigger] is_dep_path(repo, p)) && p.first() == root && p.last() == id
}

/// The index's closure invariant over the locally visible graph: every
/// dependency edge out of an indexed, locally present object lands on an
/// indexed id.
pub open spec fn index_closed(repo: LocalRepo, index: Seq<Seq<u8>>) -> bool {
    forall|n: Seq<u8>, c: Seq<u8>|
        #![auto]
        index.contains(n) && repo.has_obj(n) && is_child(repo.obj_at(n), c) ==> index.contains(c)
}

proof fn lemma_dep_path_covered(repo: LocalRepo, index: Seq<Seq<u8>>, p: Seq<Seq<u8>>)
    requires
        is_dep_path(repo, p),
        index.contains(p.first()),
        index_closed(repo, index),
    ensures
        index.contains(p.last()),
    decreases p.len(),
{
    if p.len() == 1 {
        assert(p.last() == p.first());
    } else {
        assert(repo.has_obj(p[0]) && is_child(repo.obj_at(p[0]), p[1]));
        assert(index.contains(p[1]));
        let q = p.subrange(1, p.len() as int);
        assert(is_dep_path(repo, q)) by {
            assert forall|i: int| 0 <= i < q.len() - 1 implies repo.has_obj(#[trigger] q[i])
                && is_child(repo.obj_at(q[i]), q[i + 1]) by {
                assert(q[i] == p[i + 1]);
                assert(q[i + 1] == p[i + 2]);
            }
        }
        assert(q.first() == p[1] && q.last() == p.last());
        lemma_dep_path_covered(repo, index, q);
    }
}

/// Law: a completed push establishes and preserves the index's closure
/// invariant. Given an index closed over the local graph, a correct push
/// plan for a tip, and a grown index holding everything it held before
/// plus every scheduled id (plus submodule sentinels, which name no local
/// object), the grown index is still closed, lists the tip, and lists
/// every id reachable from the tip, submodule boundaries excluded.
pub proof fn lemma_push_preserves_index_closure(
    schedule: Seq<Seq<u8>>,
    submodules: Seq<Seq<u8>>,
    repo: LocalRepo,
    index0: Seq<Seq<u8>>,
    index1: Seq<Seq<u8>>,
    root: Seq<u8>,
)
    requires
        index_closed(repo, index0),
        push_plan_correct(schedule, submodules, repo, index0, root),
        forall|id: Seq<u8>| #![auto] index0.contains(id) ==> index1.contains(id),
        forall|id: Seq<u8>| #![auto] schedule.contains(id) ==> index1.contains(id),
        forall|id: Seq<u8>|
            #![auto]
            index1.contains(id) ==> index0.contains(id) || schedule.contains(id) || id
                == spec_submodule_tip_marker(),
        !repo.has_obj(spec_submodule_tip_marker()),
    ensures
        index_closed(repo, index1),
        index1.contains(root),
        forall|id: Seq<u8>| #![auto] dep_reach(repo, root, id) ==> index1.contains(id),
{
    assert forall|n: Seq<u8>, c: Seq<u8>| #![auto]
        index1.contains(n) && repo.has_obj(n) && is_child(repo.obj_at(n), c) implies index1.contains(
        c,
    ) by {
        if index0.contains(n) {
            assert(index0.contains(c));
        } else if schedule.contains(n) {
            if !index0.contains(c) {
                assert(push_reach(repo, index0, root, n));
                lemma_reach_extend(repo, index0, root, n, c);
                assert(schedule.contains(c));
            }
        } else {
            assert(n == spec_submodule_tip_marker());
            assert(false);
        }
    }
    assert(index1.contains(root)) by {
        if !index0.contains(root) {
            lemma_reach_self(repo, index0, root);
            assert(schedule.contains(root));
        }
    }
    assert forall|id: Seq<u8>| #![auto] dep_reach(repo, root, id) implies index1.contains(id) by {
        let p = choose|p: Seq<Seq<u8>>|
            (#[trigger] is_dep_path(repo, p)) && p.first() == root && p.last() == id;
        lemma_dep_path_covered(repo, index1, p);
    }
}

/// `y` is a non-submodule entry of the tree.
pub open spec fn tree_child(es: Seq<TreeEntryView>, y: Seq<u8>) -> bool {
    exists|e: int|
        0 <= e < es.len() && (#[trigger] es[e]).kind != ObjectKind::Commit && es[e].id == y
}

/// `y` is a submodule entry of the tree.
pub open spec fn tree_sub(es: Seq<TreeEntryView>, y: Seq<u8>) -> bool {
    exists|e: int|
        0 <= e < es.len() && (#[trigger] es[e]).kind == ObjectKind::Commit && es[e].id == y
}

/// Pushes a commit's tree and parents onto the work stack.
fn expand_commit(stack: &mut Vec<Vec<u8>>, tree_id: &Vec<u8>, parent_ids: &Vec<Vec<u8>>)
    ensures
        forall|y: Seq<u8>|
            #![trigger final(stack).deep_view().contains(y)]
            final(stack).deep_view().contains(y) <==> (old(stack).deep_view().contains(y) || y
                == tree_id@ || parent_ids.deep_view().contains(y)),
{
    let ghost k0 = stack.deep_view();
    push_id(stack, tree_id);
    let ghost k_tree = stack.deep_view();
    let mut j: usize = 0;
    while j < parent_ids.len()
        invariant
            0 <= j <= parent_ids.len(),
            k_tree == k0.push(tree_id@),
            stack.deep_view() == k_tree + parent_ids.deep_view().subrange(0, j as int),
        decreases parent_ids.len() - j,
    {
        push_id(stack, &parent_ids[j]);
        proof {
            assert(parent_ids.deep_view()[j as int] == parent_ids[j as int]@);
            assert(stack.deep_view() =~~= k_tree + parent_ids.deep_view().subrange(
                0,
                j + 1 as int,
            ));
        }
        j += 1;
    }
    proof {
        let pids = parent_ids.deep_view();
        assert(pids.subrange(0, pids.len() as int) =~= pids);
        assert forall|y: Seq<u8>| #![auto]
            stack.deep_view().contains(y) <==> (k0.contains(y) || y == tree_id@ || pids.contains(
            y,
        )) by {
            lemma_contains_concat(k_tree, pids, y);
            lemma_contains_push(k0, tree_id@, y);
        }
    }
}

/// Walks a tree's entries: a submodule reference joins the submodule set
/// (once), every other entry joins the work stack.
#[verifier::rlimit(50)]
fn expand_tree_entries(
    stack: &mut Vec<Vec<u8>>,
    submodules: &mut Vec<Vec<u8>>,
    entries: &Vec<TreeEntry>,
)
    requires
        old(submodules).deep_view().no_duplicates(),
    ensures
        final(submodules).deep_view().no_duplicates(),
        forall|y: Seq<u8>|
            #![trigger final(stack).deep_view().contains(y)]
            final(stack).deep_view().contains(y) <==> (old(stack).deep_view().contains(y)
                || tree_child(entries.deep_view(), y)),
        forall|m: Seq<u8>|
            #![trigger final(submodules).deep_view().contains(m)]
            final(submodules).deep_view().contains(m) <==> (old(submodules).deep_view().contains(m)
                || tree_sub(entries.deep_view(), m)),
{
    let ghost k0 = stack.deep_view();
    let ghost m0 = submodules.deep_view();
    let ghost es = entries.deep_view();
    let mut j: usize = 0;
    while j < entries.len()
        invariant
            0 <= j <= entries.len(),
            es == entries.deep_view(),
            submodules.deep_view().no_duplicates(),
            forall|y: Seq<u8>|
                #![auto]
                stack.deep_view().contains(y) ==> k0.contains(y) || tree_child(es, y),
            forall|y: Seq<u8>| #![auto] k0.contains(y) ==> stack.deep_view().contains(y),
            forall|e: int|
                0 <= e < j && (#[trigger] es[e]).kind != ObjectKind::Commit
                    ==> stack.deep_view().contains(es[e].id),
            forall|m: Seq<u8>|
                #![auto]
                submodules.deep_view().contains(m) ==> m0.contains(m) || tree_sub(es, m),
            forall|m: Seq<u8>| #![auto] m0.contains(m) ==> submodules.deep_view().contains(m),
            forall|e: int|
                0 <= e < j && (#[trigger] es[e]).kind == ObjectKind::Commit
                    ==> submodules.deep_view().contains(es[e].id),
        decreases entries.len() - j,
    {
        proof {
            assert(es[j as int] == entries[j as int]@);
        }
        let ghost k_cur = stack.deep_view();
        let ghost m_cur = submodules.deep_view();
        if matches!(entries[j].kind, ObjectKind::Commit) {
            if !id_list_contains(&submodules, &entries[j].id) {
                submodules.push(copy_bytes(&entries[j].id));
                proof {
                    assert(submodules.deep_view() =~~= m_cur.push(es[j as int].id));
                    assert forall|a: int, b: int|
                        0 <= a < b < submodules.deep_view().len() implies submodules.deep_view()[a]
                        != submodules.deep_view()[b] by {
                        if b == m_cur.len() {
                            if m_cur[a] == es[j as int].id {
                                assert(m_cur.contains(es[j as int].id));
                            }
                        }
                    }
                    assert forall|m: Seq<u8>| #![auto]
                        submodules.deep_view().contains(m) implies (m0.contains(m) || tree_sub(
                        es,
                        m,
                    )) by {
                        lemma_contains_push(m_cur, es[j as int].id, m);
                        if m == es[j as int].id {
                            assert((#[trigger] es[j as int]).kind == ObjectKind::Commit
                                && es[j as int].id == m);
                        }
                    }
                    assert forall|m: Seq<u8>| #![auto] m_cur.contains(m) implies
                        submodules.deep_view().contains(m) by {
                        lemma_contains_push(m_cur, es[j as int].id, m);
                    }
                    lemma_contains_push(m_cur, es[j as int].id, es[j as int].id);
                }
            }
        } else {
            push_id(stack, &entries[j].id);
            proof {
                assert forall|y: Seq<u8>| #![auto] stack.deep_view().contains(y) implies (
                k_cur.contains(y) || tree_child(es, y)) by {
                    lemma_contains_push(k_cur, es[j as int].id, y);
                    if y == es[j as int].id {
                        assert((#[trigger] es[j as int]).kind != ObjectKind::Commit
                            && es[j as int].id == y);
                    }
                }
                assert forall|y: Seq<u8>| #![auto] k_cur.contains(y) implies
                    stack.deep_view().contains(y) by {
                    lemma_contains_push(k_cur, es[j as int].id, y);
                }
                lemma_contains_push(k_cur, es[j as int].id, es[j as int].id);
            }
        }
        j += 1;
    }
    proof {
        assert forall|y: Seq<u8>| #![auto]
            stack.deep_view().contains(y) <==> (k0.contains(y) || tree_child(es, y)) by {
            if tree_child(es, y) {
                let e = choose|e: int|
                    0 <= e < es.len() && (#[trigger] es[e]).kind != ObjectKind::Commit && es[e].id
                        == y;
                assert(stack.deep_view().contains(es[e].id));
            }
        }
        assert forall|m: Seq<u8>| #![auto]
            submodules.deep_view().contains(m) <==> (m0.contains(m) || tree_sub(es, m)) by {
            if tree_sub(es, m) {
                let e = choose|e: int|
                    0 <= e < es.len() && (#[trigger] es[e]).kind == ObjectKind::Commit && es[e].id
                        == m;
                assert(submodules.deep_view().contains(es[e].id));
            }
        }
    }
}

/// Pushes one object's dependencies: a commit's tree and parents, a tag's
/// target, a tree's non-submodule entries — and records a tree's submodule
/// references in the submodule set.
#[verifier::rlimit(50)]
fn expand_links(
    obj: &LocalObject,
    stack: &mut Vec<Vec<u8>>,
    submodules: &mut Vec<Vec<u8>>,
)
    requires
        old(submodules).deep_view().no_duplicates(),
    ensures
        final(submodules).deep_view().no_duplicates(),
        forall|y: Seq<u8>|
            #![trigger final(stack).deep_view().contains(y)]
            final(stack).deep_view().contains(y) <==> (old(stack).deep_view().contains(y)
                || is_child(obj@, y)),
        forall|m: Seq<u8>|
            #![trigger final(submodules).deep_view().contains(m)]
            final(submodules).deep_view().contains(m) <==> (old(submodules).deep_view().contains(m)
                || is_submodule_entry(obj@, m)),
{
    let ghost k0 = stack.deep_view();
    match &obj.links {
        ObjectLinks::Commit { parent_ids, tree_id } => {
            expand_commit(stack, tree_id, parent_ids);
            proof {
                assert(obj@.links->Commit_tree_id == tree_id@);
                assert(obj@.links->Commit_parent_ids == parent_ids.deep_view());
                assert forall|y: Seq<u8>| #![auto]
                    stack.deep_view().contains(y) <==> (k0.contains(y) || is_child(obj@, y)) by {
                    assert(stack.deep_view().contains(y) <==> (k0.contains(y) || y == tree_id@
                        || parent_ids.deep_view().contains(y)));
                }
            }
        },
        ObjectLinks::Tree { entries } => {
            expand_tree_entries(stack, submodules, entries);
            proof {
                assert(obj@.links->Tree_entries == entries.deep_view());
                assert forall|y: Seq<u8>| #![auto]
                    stack.deep_view().contains(y) <==> (k0.contains(y) || is_child(obj@, y)) by {
                    assert(tree_child(entries.deep_view(), y) == is_child(obj@, y));
                }
                assert forall|m: Seq<u8>| #![auto]
                    submodules.deep_view().contains(m) <==> (old(submodules).deep_view().contains(
                    m,
                ) || is_submodule_entry(obj@, m)) by {
                    assert(tree_sub(entries.deep_view(), m) == is_submodule_entry(obj@, m));
                }
            }
        },
        ObjectLinks::Tag { target_id } => {
            push_id(stack, target_id);
            proof {
                assert(obj@.links->Tag_target_id == target_id@);
                assert forall|y: Seq<u8>| #![auto]
                    stack.deep_view().contains(y) <==> (k0.contains(y) || is_child(obj@, y)) by {
                    lemma_contains_push(k0, target_id@, y);
                }
            }
        },
        ObjectLinks::Leaf => {
            proof {
                assert(stack.deep_view() == k0);
                assert forall|y: Seq<u8>| #![auto]
                    stack.deep_view().contains(y) <==> (k0.contains(y) || is_child(obj@, y)) by {}
            }
        },
    }
}

/// Expands one freshly popped, present, supported, unindexed object:
/// schedules it and pushes its dependencies, keeping every traversal
/// invariant.
#[verifier::rlimit(60)]
fn expand_object(
    repo: &LocalRepo,
    obj: &LocalObject,
    id: &Vec<u8>,
    schedule: &mut Vec<Vec<u8>>,
    submodules: &mut Vec<Vec<u8>>,
    stack: &mut Vec<Vec<u8>>,
    Ghost(index): Ghost<Seq<Seq<u8>>>,
    Ghost(root): Ghost<Seq<u8>>,
    Ghost(k_pre): Ghost<Seq<Seq<u8>>>,
)
    requires
        repo.wf(),
        repo.has_obj(id@),
        obj@ == repo.obj_at(id@),
        obj.kind != ObjectKind::Other,
        k_pre.len() > 0,
        k_pre.last() == id@,
        old(stack).deep_view() == k_pre.drop_last(),
        !index.contains(id@),
        !old(schedule).deep_view().contains(id@),
        push_reach(*repo, index, root, id@),
        sched_ok(*repo, index, root, old(schedule).deep_view()),
        stack_ok(*repo, index, root, k_pre),
        edges_covered(*repo, index, old(schedule).deep_view(), k_pre),
        complete_for(*repo, index, root, old(schedule).deep_view(), k_pre),
        subs_ok(*repo, old(schedule).deep_view(), old(submodules).deep_view()),
    ensures
        final(schedule).deep_view() == old(schedule).deep_view().push(id@),
        final(schedule).deep_view().len() <= repo.objs().len(),
        sched_ok(*repo, index, root, final(schedule).deep_view()),
        stack_ok(*repo, index, root, final(stack).deep_view()),
        edges_covered(*repo, index, final(schedule).deep_view(), final(stack).deep_view()),
        complete_for(*repo, index, root, final(schedule).deep_view(), final(stack).deep_view()),
        subs_ok(*repo, final(schedule).deep_view(), final(submodules).deep_view()),
{
    let ghost rp = *repo;
    let ghost k_popped = stack.deep_view();
    let ghost s_pre = schedule.deep_view();
    let ghost m_pre = submodules.deep_view();
    schedule.push(copy_bytes(id));
    proof {
        assert(schedule.deep_view() =~~= s_pre.push(id@));
        lemma_sched_push(rp, index, root, s_pre, id@);
    }
    expand_links(obj, stack, submodules);
    proof {
        assert(rp.obj_at(id@) == obj@);
        assert(k_popped == k_pre.drop_last());
        assert forall|c: Seq<u8>| #![auto] is_child(rp.obj_at(id@), c) implies
            stack.deep_view().contains(c) by {
            assert(stack.deep_view().contains(c));
        }
        assert forall|y: Seq<u8>| #![auto] stack.deep_view().contains(y) implies (
        k_pre.drop_last().contains(y) || is_child(rp.obj_at(id@), y)) by {}
        assert forall|y: Seq<u8>| #![auto] k_pre.drop_last().contains(y) implies
            stack.deep_view().contains(y) by {}
        lemma_process_pop(rp, index, root, s_pre, k_pre, stack.deep_view(), id@);
        lemma_subs_after(rp, s_pre, id@, m_pre, submodules.deep_view());
    }
}

/// The remote index: every reference the remote knows, and the append-only
/// list of ids present in the remote store (or submodule-tip sentinels).
#[derive(Clone)]
pub struct RepoData {
    pub refs: Vec<RefEntry>,
    pub objects: Vec<Vec<u8>>,
}

impl RepoData {
    /// The indexed id list, as views.
    pub open spec fn objs(self) -> Seq<Seq<u8>> {
        self.objects.deep_view()
    }

    /// The reference map, as views.
    pub open spec fn refs_v(self) -> Seq<RefEntryView> {
        self.refs.deep_view()
    }

    /// Reference names are unique.
    pub open spec fn wf(self) -> bool {
        refs_names_unique(self.refs_v())
    }

    /// An empty index: no references, no objects.
    pub fn new() -> (r: RepoData)
        ensures
            r.wf(),
            r.objs() =~= Seq::<Seq<u8>>::empty(),
            r.refs_v() =~= Seq::<RefEntryView>::empty(),
    {
        RepoData { refs: Vec::new(), objects: Vec::new() }
    }

    /// The id is already known to the remote store.
    pub fn contains_object(&self, id: &Vec<u8>) -> (r: bool)
        ensures
            r == self.objs().contains(id@),
    {
        id_list_contains(&self.objects, id)
    }

    /// Removes `name` from the reference map; removing an absent reference
    /// is a no-op, not an error. The object list is untouched.
    pub fn delete_ref(&mut self, name: &Vec<u8>)
        requires
            old(self).wf(),
        ensures
            final(self).wf(),
            final(self).objs() == old(self).objs(),
            !refs_has(final(self).refs_v(), name@),
            refs_same_except(old(self).refs_v(), final(self).refs_v(), name@),
    {
        refs_remove(&mut self.refs, name);
    }

    /// Binds `name` to `target`, replacing any previous binding. The
    /// object list is untouched.
    pub fn set_ref(&mut self, name: &Vec<u8>, target: &Vec<u8>)
        requires
            old(self).wf(),
        ensures
            final(self).wf(),
            final(self).objs() == old(self).objs(),
            refs_has(final(self).refs_v(), name@),
            refs_at(final(self).refs_v(), name@) == target@,
            refs_same_except(old(self).refs_v(), final(self).refs_v(), name@),
    {
        refs_set(&mut self.refs, name, target);
    }

    /// Appends one id to the object list (the caller has confirmed the
    /// object is durably stored remotely). Append-only: nothing else moves.
    pub fn record_object(&mut self, id: &Vec<u8>)
        requires
            old(self).wf(),
        ensures
            final(self).wf(),
            final(self).refs_v() == old(self).refs_v(),
            final(self).objs() == old(self).objs().push(id@),
    {
        self.objects.push(copy_bytes(id));
        proof {
            assert(self.objs() =~~= old(self).objs().push(id@));
        }
    }

    /// Appends `count` submodule-tip sentinels to the object list, one per
    /// submodule reference met during a push. The sentinel carries no
    /// identity: only the count survives.
    pub fn append_submodule_sentinels(&mut self, count: usize)
        requires
            old(self).wf(),
        ensures
            final(self).wf(),
            final(self).refs_v() == old(self).refs_v(),
            final(self).objs() == old(self).objs() + Seq::new(
                count as nat,
                |i: int| spec_submodule_tip_marker(),
            ),
    {
        proof {
            assert(self.objs() =~~= old(self).objs() + Seq::new(
                0 as nat,
                |j: int| spec_submodule_tip_marker(),
            ));
        }
        let mut i: usize = 0;
        while i < count
            invariant
                0 <= i <= count,
                self.wf(),
                self.refs_v() == old(self).refs_v(),
                self.objs() == old(self).objs() + Seq::new(i as nat, |j: int| spec_submodule_tip_marker()),
            decreases count - i,
        {
            let ghost pre = self.objs();
            let m = submodule_tip_marker();
            self.objects.push(m);
            proof {
                assert(self.objs() =~~= pre.push(spec_submodule_tip_marker()));
                assert(self.objs() =~~= old(self).objs() + Seq::new(
                    (i + 1) as nat,
                    |j: int| spec_submodule_tip_marker(),
                ));
            }
            i += 1;
        }
    }

    /// Computes the minimal set of objects that must be uploaded to realize
    /// `root` remotely, and the submodule tips met: an explicit-stack
    /// depth-first traversal of the local graph that skips anything already
    /// indexed or already scheduled, descends from commits into tree and
    /// parents, from tags into the target, from trees into every entry that
    /// is not a submodule reference, and records submodule references
    /// without descending. An unreadable object aborts with
    /// `ObjectReadError`, an object of an unrecognized kind with
    /// `UnsupportedKind`.
    #[verifier::rlimit(30)]
    pub fn enumerate_for_push(&self, root: &Vec<u8>, repo: &LocalRepo) -> (r: Result<
        PushPlan,
        RepoError,
    >)
        requires
            repo.wf(),
        ensures
            match r {
                Ok(plan) => push_plan_correct(
                    plan.schedule.deep_view(),
                    plan.submodules.deep_view(),
                    *repo,
                    self.objs(),
                    root@,
                ),
                Err(RepoError::ObjectReadError) => exists|id: Seq<u8>|
                    #![auto]
                    push_reach(*repo, self.objs(), root@, id) && !repo.has_obj(id),
                Err(RepoError::UnsupportedKind) => exists|id: Seq<u8>|
                    #![auto]
                    push_reach(*repo, self.objs(), root@, id) && repo.has_obj(id) && repo.obj_at(
                        id,
                    ).kind == ObjectKind::Other,
                Err(_) => false,
            },
    {
        let ghost index = self.objs();
        let ghost rp = *repo;
        let mut schedule: Vec<Vec<u8>> = Vec::new();
        let mut submodules: Vec<Vec<u8>> = Vec::new();
        let mut stack: Vec<Vec<u8>> = Vec::new();
        push_id(&mut stack, root);
        proof {
            if !index.contains(root@) {
                lemma_reach_self(rp, index, root@);
            }
            assert(stack.deep_view() =~~= Seq::<Seq<u8>>::empty().push(root@));
            assert(stack.deep_view()[0] == root@);
            assert(stack.deep_view().contains(root@));
            assert forall|id: Seq<u8>| #![auto] push_reach(rp, index, root@, id) implies (
                schedule.deep_view().contains(id) || exists|k: Seq<u8>|
                #![auto]
                stack.deep_view().contains(k) && push_reach(rp, index, k, id)) by {
                assert(stack.deep_view().contains(root@) && push_reach(rp, index, root@, id));
            }
        }
        while stack.len() > 0
            invariant
                repo.wf(),
                rp == *repo,
                index == self.objs(),
                sched_ok(rp, index, root@, schedule.deep_view()),
                schedule.deep_view().len() <= rp.objs().len(),
                stack_ok(rp, index, root@, stack.deep_view()),
                edges_covered(rp, index, schedule.deep_view(), stack.deep_view()),
                complete_for(rp, index, root@, schedule.deep_view(), stack.deep_view()),
                subs_ok(rp, schedule.deep_view(), submodules.deep_view()),
            decreases repo.objects.len() - schedule.len(), stack.len(),
        {
            let ghost k_pre = stack.deep_view();
            let id = stack.pop().unwrap();
            proof {
                assert(stack.deep_view() =~~= k_pre.drop_last());
                assert(id@ == k_pre.last());
                assert(k_pre.contains(k_pre.last()));
            }
            let ghost k_popped = stack.deep_view();
            if id_list_contains(&self.objects, &id) {
                // already present remotely: skip, do not descend
                proof {
                    lemma_skip_pop(rp, index, root@, schedule.deep_view(), k_pre);
                }
            } else if id_list_contains(&schedule, &id) {
                // already scheduled in this traversal: skip
                proof {
                    lemma_skip_pop(rp, index, root@, schedule.deep_view(), k_pre);
                }
            } else {
                let obj = match repo.get(&id) {
                    Some(o) => o,
                    None => {
                        proof {
                            assert(push_reach(rp, index, root@, id@));
                        }
                        return Err(RepoError::ObjectReadError);
                    },
                };
                proof {
                    assert(push_reach(rp, index, root@, id@));
                }
                if matches!(obj.kind, ObjectKind::Other) {
                    return Err(RepoError::UnsupportedKind);
                }
                expand_object(
                    repo,
                    obj,
                    &id,
                    &mut schedule,
                    &mut submodules,
                    &mut stack,
                    Ghost(index),
                    Ghost(root@),
                    Ghost(k_pre),
                );
            }
        }
        proof {
            assert(stack.deep_view().len() == 0);
            assert forall|id: Seq<u8>| #![auto]
                push_reach(rp, index, root@, id) implies schedule.deep_view().contains(id) by {
                if !schedule.deep_view().contains(id) {
                    let k = choose|k: Seq<u8>|
                        #![auto]
                        stack.deep_view().contains(k) && push_reach(rp, index, k, id);
                    let i = choose|i: int|
                        0 <= i < stack.deep_view().len() && stack.deep_view()[i] == k;
                    assert(false);
                }
            }
        }
        Ok(PushPlan { schedule, submodules })
    }
}

} // verus!

