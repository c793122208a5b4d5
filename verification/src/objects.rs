//! The object model: a portable representation of one version-control
//! object (commit, tree, blob or tag), and its construction from the native
//! in-repository representation.
//!
//! A `LocalObject` is what the local object database hands the engine: the
//! object's id, its raw bytes, and the structural references the database
//! can enumerate (parents and tree for a commit, entries for a tree, target
//! for a tag). A `GitObject` is the transport form: the same id and bytes,
//! with the references normalized into canonical sorted id lists.

use vstd::prelude::*;

use crate::errors::RepoError;
use crate::ids::{copy_bytes, insert_sorted_unique, strictly_sorted};

verus! {

/// The kind of a version-control object. `Other` stands for any kind
/// outside the four the engine understands; meeting one is a fatal
/// `UnsupportedKind`.
#[derive(Clone, Copy, Debug, PartialEq, Eq, Structural)]
pub enum ObjectKind {
    Commit,
    Tree,
    Blob,
    Tag,
    Other,
}

/// One entry of a tree object: the id it points at and the kind recorded in
/// the tree itself. An entry of kind `Commit` denotes an embedded submodule
/// reference.
#[derive(Clone)]
pub struct TreeEntry {
    pub id: Vec<u8>,
    pub kind: ObjectKind,
}

pub struct TreeEntryView {
    pub id: Seq<u8>,
    pub kind: ObjectKind,
}

impl View for TreeEntry {
    type V = TreeEntryView;

    open spec fn view(&self) -> TreeEntryView {
        TreeEntryView { id: self.id@, kind: self.kind }
    }
}

impl DeepView for TreeEntry {
    type V = TreeEntryView;

    open spec fn deep_view(&self) -> TreeEntryView {
        self.view()
    }
}

/// The structural references of a local object. Blobs, and objects of
/// unrecognized kinds, reference nothing.
#[derive(Clone)]
pub enum ObjectLinks {
    Commit { parent_ids: Vec<Vec<u8>>, tree_id: Vec<u8> },
    Tree { entries: Vec<TreeEntry> },
    Tag { target_id: Vec<u8> },
    Leaf,
}

pub enum ObjectLinksView {
    Commit { parent_ids: Seq<Seq<u8>>, tree_id: Seq<u8> },
    Tree { entries: Seq<TreeEntryView> },
    Tag { target_id: Seq<u8> },
    Leaf,
}

impl View for ObjectLinks {
    type V = ObjectLinksView;

    open spec fn view(&self) -> ObjectLinksView {
        match self {
            ObjectLinks::Commit { parent_ids, tree_id } => ObjectLinksView::Commit {
                parent_ids: parent_ids.deep_view(),
                tree_id: tree_id@,
            },
            ObjectLinks::Tree { entries } => ObjectLinksView::Tree {
                entries: entries.deep_view(),
            },
            ObjectLinks::Tag { target_id } => ObjectLinksView::Tag { target_id: target_id@ },
            ObjectLinks::Leaf => ObjectLinksView::Leaf,
        }
    }
}

/// One object as the local object database presents it.
#[derive(Clone)]
pub struct LocalObject {
    pub id: Vec<u8>,
    pub kind: ObjectKind,
    pub data: Vec<u8>,
    pub links: ObjectLinks,
}

pub struct LocalObjectView {
    pub id: Seq<u8>,
    pub kind: ObjectKind,
    pub data: Seq<u8>,
    pub links: ObjectLinksView,
}

impl View for LocalObject {
    type V = LocalObjectView;

    open spec fn view(&self) -> LocalObjectView {
        LocalObjectView { id: self.id@, kind: self.kind, data: self.data@, links: self.links@ }
    }
}

impl DeepView for LocalObject {
    type V = LocalObjectView;

    open spec fn deep_view(&self) -> LocalObjectView {
        self.view()
    }
}

/// The structural references fit the declared kind.
pub open spec fn links_match(kind: ObjectKind, links: ObjectLinksView) -> bool {
    match kind {
        ObjectKind::Commit => links is Commit,
        ObjectKind::Tree => links is Tree,
        ObjectKind::Tag => links is Tag,
        ObjectKind::Blob => links is Leaf,
        ObjectKind::Other => links is Leaf,
    }
}

impl LocalObjectView {
    /// The structural references match the declared kind.
    pub open spec fn wf(self) -> bool {
        links_match(self.kind, self.links)
    }
}

/// `c` is an id this object depends on, submodule boundaries excluded:
/// a commit depends on its tree and its parents, a tag on its target, a
/// tree on every entry that is not an embedded submodule reference.
pub open spec fn is_child(l: LocalObjectView, c: Seq<u8>) -> bool {
    match l.links {
        ObjectLinksView::Commit { parent_ids, tree_id } => c == tree_id || parent_ids.contains(c),
        ObjectLinksView::Tree { entries } => exists|i: int|
            0 <= i < entries.len() && (#[trigger] entries[i]).kind != ObjectKind::Commit
                && entries[i].id == c,
        ObjectLinksView::Tag { target_id } => c == target_id,
        ObjectLinksView::Leaf => false,
    }
}

/// `c` is recorded in this tree as an embedded submodule reference.
pub open spec fn is_submodule_entry(l: LocalObjectView, c: Seq<u8>) -> bool {
    match l.links {
        ObjectLinksView::Tree { entries } => exists|i: int|
            0 <= i < entries.len() && (#[trigger] entries[i]).kind == ObjectKind::Commit
                && entries[i].id == c,
        _ => false,
    }
}

/// Object-kind-specific transport metadata. Sets of ids are held as
/// canonical strictly sorted sequences.
#[derive(Clone, Debug)]
pub enum GitObjectMetadata {
    Commit { parent_git_hashes: Vec<Vec<u8>>, tree_git_hash: Vec<u8> },
    Tag { target_git_hash: Vec<u8> },
    Tree { entry_git_hashes: Vec<Vec<u8>> },
    Blob,
}

pub enum GitObjectMetadataView {
    Commit { parent_git_hashes: Seq<Seq<u8>>, tree_git_hash: Seq<u8> },
    Tag { target_git_hash: Seq<u8> },
    Tree { entry_git_hashes: Seq<Seq<u8>> },
    Blob,
}

impl View for GitObjectMetadata {
    type V = GitObjectMetadataView;

    open spec fn view(&self) -> GitObjectMetadataView {
        match self {
            GitObjectMetadata::Commit { parent_git_hashes, tree_git_hash } =>
                GitObjectMetadataView::Commit {
                    parent_git_hashes: parent_git_hashes.deep_view(),
                    tree_git_hash: tree_git_hash@,
                },
            GitObjectMetadata::Tag { target_git_hash } => GitObjectMetadataView::Tag {
                target_git_hash: target_git_hash@,
            },
            GitObjectMetadata::Tree { entry_git_hashes } => GitObjectMetadataView::Tree {
                entry_git_hashes: entry_git_hashes.deep_view(),
            },
            GitObjectMetadata::Blob => GitObjectMetadataView::Blob,
        }
    }
}

/// One serialized version-control object: its id (the content hash computed
/// by the local version-control system), the exact raw bytes the local
/// object store needs to reconstruct it, and the structural metadata.
#[derive(Clone, Debug)]
pub struct GitObject {
    pub git_hash: Vec<u8>,
    pub raw_data: Vec<u8>,
    pub metadata: GitObjectMetadata,
}

pub struct GitObjectView {
    pub git_hash: Seq<u8>,
    pub raw_data: Seq<u8>,
    pub metadata: GitObjectMetadataView,
}

impl View for GitObject {
    type V = GitObjectView;

    open spec fn view(&self) -> GitObjectView {
        GitObjectView {
            git_hash: self.git_hash@,
            raw_data: self.raw_data@,
            metadata: self.metadata@,
        }
    }
}

impl GitObjectView {
    /// The kind of local object this metadata describes.
    pub open spec fn kind(self) -> ObjectKind {
        match self.metadata {
            GitObjectMetadataView::Commit { .. } => ObjectKind::Commit,
            GitObjectMetadataView::Tag { .. } => ObjectKind::Tag,
            GitObjectMetadataView::Tree { .. } => ObjectKind::Tree,
            GitObjectMetadataView::Blob => ObjectKind::Blob,
        }
    }
}

impl GitObject {
    /// The kind of object this transport object carries.
    pub fn kind(&self) -> (r: ObjectKind)
        ensures
            r == self@.kind(),
    {
        match &self.metadata {
            GitObjectMetadata::Commit { .. } => ObjectKind::Commit,
            GitObjectMetadata::Tag { .. } => ObjectKind::Tag,
            GitObjectMetadata::Tree { .. } => ObjectKind::Tree,
            GitObjectMetadata::Blob => ObjectKind::Blob,
        }
    }

    /// Builds the transport form of a blob.
    pub fn from_git_blob(obj: &LocalObject) -> (r: Result<GitObject, RepoError>)
        ensures
            match r {
                Ok(g) => obj.kind == ObjectKind::Blob && g@.git_hash == obj@.id && g@.raw_data
                    == obj@.data && g@.metadata == GitObjectMetadataView::Blob,
                Err(e) => e == RepoError::UnsupportedKind && obj.kind != ObjectKind::Blob,
            },
    {
        if !matches!(obj.kind, ObjectKind::Blob) {
            return Err(RepoError::UnsupportedKind);
        }
        Ok(GitObject {
            git_hash: copy_bytes(&obj.id),
            raw_data: copy_bytes(&obj.data),
            metadata: GitObjectMetadata::Blob,
        })
    }

    /// Builds the transport form of a commit: its parent set becomes a
    /// canonical sorted id list, its tree id is carried as is.
    pub fn from_git_commit(obj: &LocalObject) -> (r: Result<GitObject, RepoError>)
        requires
            obj@.wf(),
        ensures
            match r {
                Ok(g) => obj.kind == ObjectKind::Commit && g@.git_hash == obj@.id && g@.raw_data
                    == obj@.data && (g@.metadata matches GitObjectMetadataView::Commit {
                    parent_git_hashes,
                    tree_git_hash,
                } && strictly_sorted(parent_git_hashes) && tree_git_hash == obj@.links->Commit_tree_id
                    && (forall|y: Seq<u8>|
                    parent_git_hashes.contains(y) <==> obj@.links->Commit_parent_ids.contains(y))),
                Err(e) => e == RepoError::UnsupportedKind && obj.kind != ObjectKind::Commit,
            },
    {
        match &obj.links {
            ObjectLinks::Commit { parent_ids, tree_id } => {
                let parents = sorted_unique_ids(parent_ids);
                Ok(GitObject {
                    git_hash: copy_bytes(&obj.id),
                    raw_data: copy_bytes(&obj.data),
                    metadata: GitObjectMetadata::Commit {
                        parent_git_hashes: parents,
                        tree_git_hash: copy_bytes(tree_id),
                    },
                })
            },
            _ => Err(RepoError::UnsupportedKind),
        }
    }

    /// Builds the transport form of a tag.
    pub fn from_git_tag(obj: &LocalObject) -> (r: Result<GitObject, RepoError>)
        requires
            obj@.wf(),
        ensures
            match r {
                Ok(g) => obj.kind == ObjectKind::Tag && g@.git_hash == obj@.id && g@.raw_data
                    == obj@.data && g@.metadata == (GitObjectMetadataView::Tag {
                    target_git_hash: obj@.links->Tag_target_id,
                }),
                Err(e) => e == RepoError::UnsupportedKind && obj.kind != ObjectKind::Tag,
            },
    {
        match &obj.links {
            ObjectLinks::Tag { target_id } => Ok(GitObject {
                git_hash: copy_bytes(&obj.id),
                raw_data: copy_bytes(&obj.data),
                metadata: GitObjectMetadata::Tag { target_git_hash: copy_bytes(target_id) },
            }),
            _ => Err(RepoError::UnsupportedKind),
        }
    }

    /// Builds the transport form of a tree: every entry id, submodule
    /// references included, joins the canonical sorted id list.
    pub fn from_git_tree(obj: &LocalObject) -> (r: Result<GitObject, RepoError>)
        requires
            obj@.wf(),
        ensures
            match r {
                Ok(g) => obj.kind == ObjectKind::Tree && g@.git_hash == obj@.id && g@.raw_data
                    == obj@.data && (g@.metadata matches GitObjectMetadataView::Tree {
                    entry_git_hashes,
                } && strictly_sorted(entry_git_hashes) && (forall|y: Seq<u8>|
                    entry_git_hashes.contains(y) <==> exists|i: int|
                        0 <= i < obj@.links->Tree_entries.len() && (#[trigger] obj@.links->Tree_entries[i]).id
                            == y)),
                Err(e) => e == RepoError::UnsupportedKind && obj.kind != ObjectKind::Tree,
            },
    {
        match &obj.links {
            ObjectLinks::Tree { entries } => {
                let mut hashes: Vec<Vec<u8>> = Vec::new();
                let mut i: usize = 0;
                while i < entries.len()
                    invariant
                        0 <= i <= entries.len(),
                        strictly_sorted(hashes.deep_view()),
                        forall|y: Seq<u8>|
                            hashes.deep_view().contains(y) <==> exists|j: int|
                                0 <= j < i && (#[trigger] entries.deep_view()[j]).id == y,
                    decreases entries.len() - i,
                {
                    proof {
                        assert(entries.deep_view()[i as int] == entries[i as int]@);
                    }
                    insert_sorted_unique(&mut hashes, &entries[i].id);
                    i += 1;
                }
                proof {
                    assert(entries.deep_view() =~= obj@.links->Tree_entries);
                }
                Ok(GitObject {
                    git_hash: copy_bytes(&obj.id),
                    raw_data: copy_bytes(&obj.data),
                    metadata: GitObjectMetadata::Tree { entry_git_hashes: hashes },
                })
            },
            _ => Err(RepoError::UnsupportedKind),
        }
    }

    /// Builds the transport form of any supported object; an object of an
    /// unrecognized kind is refused with `UnsupportedKind`.
    pub fn from_local(obj: &LocalObject) -> (r: Result<GitObject, RepoError>)
        requires
            obj@.wf(),
        ensures
            match r {
                Ok(g) => obj.kind != ObjectKind::Other && g@.git_hash == obj@.id && g@.raw_data
                    == obj@.data && g@.kind() == obj.kind,
                Err(e) => e == RepoError::UnsupportedKind && obj.kind == ObjectKind::Other,
            },
    {
        match obj.kind {
            ObjectKind::Commit => GitObject::from_git_commit(obj),
            ObjectKind::Tree => GitObject::from_git_tree(obj),
            ObjectKind::Blob => GitObject::from_git_blob(obj),
            ObjectKind::Tag => GitObject::from_git_tag(obj),
            ObjectKind::Other => Err(RepoError::UnsupportedKind),
        }
    }
}

/// The canonical sorted, duplicate-free form of a list of ids.
pub fn sorted_unique_ids(src: &Vec<Vec<u8>>) -> (r: Vec<Vec<u8>>)
    ensures
        strictly_sorted(r.deep_view()),
        forall|y: Seq<u8>| r.deep_view().contains(y) <==> src.deep_view().contains(y),
{
    let mut r: Vec<Vec<u8>> = Vec::new();
    let mut i: usize = 0;
    while i < src.len()
        invariant
            0 <= i <= src.len(),
            strictly_sorted(r.deep_view()),
            forall|y: Seq<u8>|
                r.deep_view().contains(y) <==> src.deep_view().subrange(0, i as int).contains(y),
        decreases src.len() - i,
    {
        proof {
            assert(src.deep_view()[i as int] == src[i as int]@);
        }
        insert_sorted_unique(&mut r, &src[i]);
        proof {
            let pre = src.deep_view().subrange(0, i as int);
            let cur = src.deep_view().subrange(0, i + 1 as int);
            assert(cur.drop_last() =~= pre);
            assert forall|y: Seq<u8>| cur.contains(y) <==> (pre.contains(y) || y == src.deep_view()[i as int]) by {
                if cur.contains(y) {
                    let k = choose|k: int| 0 <= k < cur.len() && cur[k] == y;
                    if k < i {
                        assert(pre[k] == y);
                    }
                }
                if pre.contains(y) {
                    let k = choose|k: int| 0 <= k < pre.len() && pre[k] == y;
                    assert(cur[k] == y);
                }
                if y == src.deep_view()[i as int] {
                    assert(cur[i as int] == y);
                }
            }
        }
        i += 1;
    }
    proof {
        assert(src.deep_view().subrange(0, src.deep_view().len() as int) =~= src.deep_view());
    }
    r
}

} // verus!
