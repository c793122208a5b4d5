//! A verified synchronization core for a git remote backed by a
//! content-addressed blob store and an append-only distributed ledger.
//!
//! The library models version-control objects (`GitObject`), the remote
//! index (`RepoData`), and the push/fetch traversal engines over plain
//! values; the surrounding I/O (local repository access, blob-store and
//! ledger calls) is driven by the embedding program.

mod config;
mod encoding;
mod errors;
mod fetch;
mod ids;
mod ledger;
mod local_repo;
mod push;
mod objects;
mod refs;
mod repo_data;

pub use encoding::{
    decode_git_object, decode_repo_data, enc_bytes, enc_id_list, encode_git_object,
    encode_repo_data, le64, lemma_encode_git_object_injective, lemma_encode_repo_data_injective,
    spec_encode_git_object, spec_encode_repo_data,
};
pub use config::{Config, RefsFile};
pub use errors::RepoError;
pub use fetch::{
    fetch_ref_update, is_meta_path, lemma_fetch_complete, meta_children, meta_reach, FetchPlanner,
    PlanStep,
};
pub use ledger::{
    find_minted_event, find_prior_index_record, find_record_for_key, LedgerEvent, LedgerRecord,
    LedgerRecordView,
};
pub use push::{check_push_guard, finish_push, prepare_object};
pub use objects::{
    is_child, is_submodule_entry, sorted_unique_ids, GitObject, GitObjectMetadata,
    GitObjectMetadataView, GitObjectView, LocalObject, LocalObjectView, ObjectKind, ObjectLinks,
    ObjectLinksView, TreeEntry, TreeEntryView,
};
pub use ids::{
    bytes_eq, bytes_le, bytes_le_exec, copy_bytes, id_list_contains, index_label,
    insert_sorted_unique, spec_index_label, spec_submodule_tip_marker, strictly_sorted,
    submodule_tip_marker, bytes_starts_with, copy_id_list, spec_tags_prefix, tags_prefix, RefEntry,
    RefEntryView,
};
pub use local_repo::{git_hash_of, git_hash_ok, kind_code, LocalRepo};
pub use objects::links_match;
pub use refs::{
    refs_at, refs_has, refs_lookup, refs_names_unique, refs_remove, refs_same_except, refs_set,
};
pub use repo_data::{
    dep_reach, index_closed, is_dep_path, is_push_path, lemma_enumerate_idempotent,
    lemma_push_dedup, lemma_push_preserves_index_closure, push_plan_correct, push_reach, PushPlan,
    RepoData,
};

use vstd::prelude::*;

verus! {

} // verus!
