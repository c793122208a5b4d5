use inv4_git::{
    check_push_guard, decode_git_object, encode_git_object, fetch_ref_update, find_minted_event,
    find_prior_index_record, finish_push, prepare_object, FetchPlanner, GitObject,
    GitObjectMetadata, LedgerEvent, LedgerRecord, LocalObject, LocalRepo, ObjectKind, ObjectLinks,
    PlanStep, RefEntry, RepoData, RepoError,
};

fn hex_id(kind: git2::ObjectType, data: &[u8]) -> Vec<u8> {
    git2::Oid::hash_object(kind, data)
        .unwrap()
        .to_string()
        .into_bytes()
}

fn blob(data: &[u8]) -> LocalObject {
    LocalObject {
        id: hex_id(git2::ObjectType::Blob, data),
        kind: ObjectKind::Blob,
        data: data.to_vec(),
        links: ObjectLinks::Leaf,
    }
}

fn tree(data: &[u8], entries: Vec<inv4_git::TreeEntry>) -> LocalObject {
    LocalObject {
        id: hex_id(git2::ObjectType::Tree, data),
        kind: ObjectKind::Tree,
        data: data.to_vec(),
        links: ObjectLinks::Tree { entries },
    }
}

fn commit(data: &[u8], parents: Vec<Vec<u8>>, tree_id: Vec<u8>) -> LocalObject {
    LocalObject {
        id: hex_id(git2::ObjectType::Commit, data),
        kind: ObjectKind::Commit,
        data: data.to_vec(),
        links: ObjectLinks::Commit {
            parent_ids: parents,
            tree_id,
        },
    }
}

fn set_of(v: &[Vec<u8>]) -> std::collections::BTreeSet<Vec<u8>> {
    v.iter().cloned().collect()
}

#[test]
fn push_single_commit_with_empty_tree() {
    // schedule = {C1, empty tree}; after the push the index lists both and
    // the destination ref points at C1.
    let t = tree(b"t-empty", vec![]);
    let c1 = commit(b"c1", vec![], t.id.clone());
    let repo = LocalRepo {
        objects: vec![t.clone(), c1.clone()],
        refs: vec![RefEntry {
            name: b"refs/heads/main".to_vec(),
            target: c1.id.clone(),
        }],
    };
    let mut index = RepoData::new();
    let tip = repo.resolve_ref_for_push(&b"refs/heads/main".to_vec()).unwrap();
    assert_eq!(tip, c1.id);
    let plan = index.enumerate_for_push(&tip, &repo).unwrap();
    assert_eq!(
        set_of(&plan.schedule),
        set_of(&[c1.id.clone(), t.id.clone()])
    );
    assert!(plan.submodules.is_empty());
    for id in &plan.schedule {
        let g = prepare_object(&index, &repo, id).unwrap().unwrap();
        assert_eq!(&g.git_hash, id);
        index.record_object(id);
    }
    finish_push(&mut index, plan.submodules.len(), &b"refs/heads/main".to_vec(), &tip);
    assert_eq!(set_of(&index.objects), set_of(&[c1.id.clone(), t.id.clone()]));
    let target = inv4_git::refs_lookup(&index.refs, &b"refs/heads/main".to_vec()).unwrap();
    assert_eq!(target, c1.id);
}

#[test]
fn push_child_commit_schedules_only_the_child() {
    // C2 is a child of C1 with an unchanged tree: only C2 is scheduled.
    let t = tree(b"t-empty", vec![]);
    let c1 = commit(b"c1", vec![], t.id.clone());
    let c2 = commit(b"c2", vec![c1.id.clone()], t.id.clone());
    let repo = LocalRepo {
        objects: vec![t.clone(), c1.clone(), c2.clone()],
        refs: vec![],
    };
    let index = RepoData {
        refs: vec![],
        objects: vec![c1.id.clone(), t.id.clone()],
    };
    let plan = index.enumerate_for_push(&c2.id, &repo).unwrap();
    assert_eq!(plan.schedule, vec![c2.id.clone()]);
}

#[test]
fn enumeration_is_idempotent() {
    let t = tree(b"t-empty", vec![]);
    let c1 = commit(b"c1", vec![], t.id.clone());
    let repo = LocalRepo {
        objects: vec![t.clone(), c1.clone()],
        refs: vec![],
    };
    let index = RepoData::new();
    let p1 = index.enumerate_for_push(&c1.id, &repo).unwrap();
    let p2 = index.enumerate_for_push(&c1.id, &repo).unwrap();
    assert_eq!(set_of(&p1.schedule), set_of(&p2.schedule));
    assert_eq!(set_of(&p1.submodules), set_of(&p2.submodules));
}

#[test]
fn indexed_root_is_never_rescheduled() {
    let b = blob(b"payload");
    let repo = LocalRepo {
        objects: vec![b.clone()],
        refs: vec![],
    };
    let index = RepoData {
        refs: vec![],
        objects: vec![b.id.clone()],
    };
    let plan = index.enumerate_for_push(&b.id, &repo).unwrap();
    assert!(plan.schedule.is_empty());
}

#[test]
fn submodule_entries_are_recorded_not_traversed() {
    // a tree entry of kind commit is an embedded submodule reference: it is
    // never scheduled, and the push appends one sentinel per tip met.
    let sub_tip = hex_id(git2::ObjectType::Commit, b"somewhere-else");
    let t = tree(
        b"t-sub",
        vec![inv4_git::TreeEntry {
            id: sub_tip.clone(),
            kind: ObjectKind::Commit,
        }],
    );
    let c1 = commit(b"c1", vec![], t.id.clone());
    let repo = LocalRepo {
        objects: vec![t.clone(), c1.clone()],
        refs: vec![],
    };
    let mut index = RepoData::new();
    let plan = index.enumerate_for_push(&c1.id, &repo).unwrap();
    assert_eq!(set_of(&plan.schedule), set_of(&[c1.id.clone(), t.id.clone()]));
    assert_eq!(plan.submodules, vec![sub_tip.clone()]);
    for id in &plan.schedule {
        index.record_object(id);
    }
    let before = index.objects.len();
    finish_push(&mut index, plan.submodules.len(), &b"refs/heads/main".to_vec(), &c1.id);
    assert_eq!(index.objects.len(), before + 1);
    assert_eq!(index.objects[before], b"submodule-tip".to_vec());
}

#[test]
fn unsupported_kind_aborts_enumeration() {
    let odd = LocalObject {
        id: hex_id(git2::ObjectType::Blob, b"odd"),
        kind: ObjectKind::Other,
        data: b"odd".to_vec(),
        links: ObjectLinks::Leaf,
    };
    let repo = LocalRepo {
        objects: vec![odd.clone()],
        refs: vec![],
    };
    let index = RepoData::new();
    assert_eq!(
        index.enumerate_for_push(&odd.id, &repo).unwrap_err(),
        RepoError::UnsupportedKind
    );
}

#[test]
fn missing_object_aborts_enumeration() {
    let repo = LocalRepo {
        objects: vec![],
        refs: vec![],
    };
    let index = RepoData::new();
    let ghost_id = hex_id(git2::ObjectType::Blob, b"not-there");
    assert_eq!(
        index.enumerate_for_push(&ghost_id, &repo).unwrap_err(),
        RepoError::ObjectReadError
    );
}

#[test]
fn deleting_refs_is_idempotent() {
    // pushing with an empty source ref deletes the destination ref; deleting
    // an absent ref is a no-op, not an error.
    let mut index = RepoData {
        refs: vec![RefEntry {
            name: b"refs/heads/main".to_vec(),
            target: b"0000".to_vec(),
        }],
        objects: vec![],
    };
    index.delete_ref(&b"refs/heads/main".to_vec());
    assert!(inv4_git::refs_lookup(&index.refs, &b"refs/heads/main".to_vec()).is_none());
    index.delete_ref(&b"refs/heads/main".to_vec());
    assert!(index.refs.is_empty());
}

#[test]
fn guard_rejects_unfetched_history() {
    // history missing locally: non-forced push is refused with
    // PullNeededError, both when objects are missing and when the tip left
    // the index entirely.
    assert_eq!(
        check_push_guard(&Ok(vec![b"aa".to_vec()])).unwrap_err(),
        RepoError::PullNeededError
    );
    assert_eq!(
        check_push_guard(&Err(RepoError::ObjectNotIndexed)).unwrap_err(),
        RepoError::PullNeededError
    );
    assert!(check_push_guard(&Ok(vec![])).is_ok());
}

#[test]
fn forced_push_overwrites_the_ref() {
    let mut index = RepoData {
        refs: vec![RefEntry {
            name: b"refs/heads/main".to_vec(),
            target: b"old-tip".to_vec(),
        }],
        objects: vec![],
    };
    finish_push(&mut index, 0, &b"refs/heads/main".to_vec(), &b"new-tip".to_vec());
    let target = inv4_git::refs_lookup(&index.refs, &b"refs/heads/main".to_vec()).unwrap();
    assert_eq!(target, b"new-tip".to_vec());
}

#[test]
fn fetch_plans_the_missing_closure() {
    // fetch C2 into an empty local repository: schedule = {C2, C1, tree};
    // afterwards all three are present and the ref points at C2.
    let raw_t: &[u8] = b"t-empty";
    let raw_c1: &[u8] = b"c1";
    let raw_c2: &[u8] = b"c2";
    let id_t = hex_id(git2::ObjectType::Tree, raw_t);
    let id_c1 = hex_id(git2::ObjectType::Commit, raw_c1);
    let id_c2 = hex_id(git2::ObjectType::Commit, raw_c2);
    let index = RepoData {
        refs: vec![],
        objects: vec![id_c1.clone(), id_c2.clone(), id_t.clone()],
    };
    let mut repo = LocalRepo {
        objects: vec![],
        refs: vec![],
    };
    let meta = |id: &Vec<u8>| -> GitObject {
        if *id == id_c2 {
            GitObject {
                git_hash: id_c2.clone(),
                raw_data: raw_c2.to_vec(),
                metadata: GitObjectMetadata::Commit {
                    parent_git_hashes: vec![id_c1.clone()],
                    tree_git_hash: id_t.clone(),
                },
            }
        } else if *id == id_c1 {
            GitObject {
                git_hash: id_c1.clone(),
                raw_data: raw_c1.to_vec(),
                metadata: GitObjectMetadata::Commit {
                    parent_git_hashes: vec![],
                    tree_git_hash: id_t.clone(),
                },
            }
        } else {
            GitObject {
                git_hash: id_t.clone(),
                raw_data: raw_t.to_vec(),
                metadata: GitObjectMetadata::Tree {
                    entry_git_hashes: vec![],
                },
            }
        }
    };
    let mut planner = FetchPlanner::new(&index, &id_c2);
    let mut fetched: Vec<GitObject> = Vec::new();
    loop {
        match planner.step(&repo).unwrap() {
            PlanStep::Done => break,
            PlanStep::Need(id) => {
                let g = meta(&id);
                planner.supply(&g);
                fetched.push(g);
            }
        }
    }
    let schedule = planner.into_schedule();
    assert_eq!(
        set_of(&schedule),
        set_of(&[id_c2.clone(), id_c1.clone(), id_t.clone()])
    );
    for g in &fetched {
        let links = match &g.metadata {
            GitObjectMetadata::Commit {
                parent_git_hashes,
                tree_git_hash,
            } => ObjectLinks::Commit {
                parent_ids: parent_git_hashes.clone(),
                tree_id: tree_git_hash.clone(),
            },
            GitObjectMetadata::Tree { .. } => ObjectLinks::Tree { entries: vec![] },
            GitObjectMetadata::Tag { .. } => ObjectLinks::Leaf,
            GitObjectMetadata::Blob => ObjectLinks::Leaf,
        };
        let written = repo.apply_fetched(g, links).unwrap();
        assert_eq!(written, g.git_hash);
    }
    assert!(repo.get(&id_c2).is_some());
    assert!(repo.get(&id_c1).is_some());
    assert!(repo.get(&id_t).is_some());
    let set = fetch_ref_update(&mut repo, &id_c2, &b"refs/heads/main".to_vec()).unwrap();
    assert!(set);
    let target = inv4_git::refs_lookup(&repo.refs, &b"refs/heads/main".to_vec()).unwrap();
    assert_eq!(target, id_c2);
}

#[test]
fn fetch_of_unindexed_id_fails() {
    let index = RepoData::new();
    let repo = LocalRepo {
        objects: vec![],
        refs: vec![],
    };
    let mut planner = FetchPlanner::new(&index, &hex_id(git2::ObjectType::Blob, b"x"));
    assert_eq!(planner.step(&repo).unwrap_err(), RepoError::ObjectNotIndexed);
}

#[test]
fn corrupted_fetch_fails_integrity_and_leaves_no_entry() {
    // the blob's content does not hash to the id it was fetched for
    let claimed = hex_id(git2::ObjectType::Blob, b"what-was-asked-for");
    let g = GitObject {
        git_hash: claimed.clone(),
        raw_data: b"something else entirely".to_vec(),
        metadata: GitObjectMetadata::Blob,
    };
    let mut repo = LocalRepo {
        objects: vec![],
        refs: vec![],
    };
    assert_eq!(
        repo.apply_fetched(&g, ObjectLinks::Leaf).unwrap_err(),
        RepoError::IntegrityError
    );
    assert!(repo.get(&claimed).is_none());
}

#[test]
fn fetched_blob_is_stored_under_its_real_hash() {
    // the object id of an empty blob, as git computes it
    let empty_blob_id = b"e69de29bb2d1d6434b8b29ae775ad8c2e48c5391".to_vec();
    let g = GitObject {
        git_hash: empty_blob_id.clone(),
        raw_data: vec![],
        metadata: GitObjectMetadata::Blob,
    };
    let mut repo = LocalRepo {
        objects: vec![],
        refs: vec![],
    };
    let written = repo.apply_fetched(&g, ObjectLinks::Leaf).unwrap();
    assert_eq!(written, empty_blob_id);
    assert!(repo.get(&empty_blob_id).is_some());
}

#[test]
fn fetch_enumeration_ends_at_sentinel() {
    // an indexed entry equal to the sentinel ends the whole enumeration,
    // abandoning the rest of the stack
    let id_tag = hex_id(git2::ObjectType::Tag, b"points-at-submodule");
    let sentinel = b"submodule-tip".to_vec();
    let index = RepoData {
        refs: vec![],
        objects: vec![id_tag.clone(), sentinel.clone()],
    };
    let repo = LocalRepo {
        objects: vec![],
        refs: vec![],
    };
    let mut planner = FetchPlanner::new(&index, &id_tag);
    match planner.step(&repo).unwrap() {
        PlanStep::Need(id) => {
            assert_eq!(id, id_tag);
            planner.supply(&GitObject {
                git_hash: id_tag.clone(),
                raw_data: b"points-at-submodule".to_vec(),
                metadata: GitObjectMetadata::Tag {
                    target_git_hash: sentinel.clone(),
                },
            });
        }
        PlanStep::Done => panic!("expected a metadata request"),
    }
    match planner.step(&repo).unwrap() {
        PlanStep::Done => {}
        PlanStep::Need(_) => panic!("expected the sentinel to end the enumeration"),
    }
    assert!(planner.sentinel_hit);
    assert_eq!(planner.into_schedule(), vec![id_tag]);
}

#[test]
fn minted_event_takes_the_first() {
    let events = vec![
        LedgerEvent::Other,
        LedgerEvent::Minted { record_id: 5 },
        LedgerEvent::Minted { record_id: 6 },
    ];
    assert_eq!(find_minted_event(&events).unwrap(), 5);
}

#[test]
fn prior_index_record_takes_the_first() {
    let records = vec![
        LedgerRecord {
            record_id: 3,
            key: b"RepoData".to_vec(),
            content: vec![],
        },
        LedgerRecord {
            record_id: 8,
            key: b"RepoData".to_vec(),
            content: vec![],
        },
    ];
    assert_eq!(find_prior_index_record(&records), Some(3));
}

#[test]
fn decode_rejects_a_truncated_encoding() {
    let g = GitObject {
        git_hash: b"id".to_vec(),
        raw_data: b"raw".to_vec(),
        metadata: GitObjectMetadata::Blob,
    };
    let mut bytes = encode_git_object(&g);
    bytes.pop();
    assert_eq!(
        decode_git_object(&bytes).unwrap_err(),
        RepoError::DecodeError
    );
}

#[test]
fn minted_event_extraction() {
    let events = vec![LedgerEvent::Other, LedgerEvent::Minted { record_id: 41 }];
    assert_eq!(find_minted_event(&events).unwrap(), 41);
    let none = vec![LedgerEvent::Other];
    assert_eq!(
        find_minted_event(&none).unwrap_err(),
        RepoError::MissingEventError
    );
}

#[test]
fn prior_index_record_lookup() {
    let records = vec![
        LedgerRecord {
            record_id: 7,
            key: b"not-it".to_vec(),
            content: vec![],
        },
        LedgerRecord {
            record_id: 9,
            key: b"RepoData".to_vec(),
            content: vec![],
        },
    ];
    assert_eq!(find_prior_index_record(&records), Some(9));
    let unlabeled = vec![LedgerRecord {
        record_id: 7,
        key: b"not-it".to_vec(),
        content: vec![],
    }];
    assert_eq!(find_prior_index_record(&unlabeled), None);
}

#[test]
fn annotated_tags_peel_to_the_tag_object() {
    let t = tree(b"t-empty", vec![]);
    let c1 = commit(b"c1", vec![], t.id.clone());
    let tag = LocalObject {
        id: hex_id(git2::ObjectType::Tag, b"v1"),
        kind: ObjectKind::Tag,
        data: b"v1".to_vec(),
        links: ObjectLinks::Tag {
            target_id: c1.id.clone(),
        },
    };
    let repo = LocalRepo {
        objects: vec![t, c1, tag.clone()],
        refs: vec![RefEntry {
            name: b"refs/tags/v1".to_vec(),
            target: tag.id.clone(),
        }],
    };
    let tip = repo.resolve_ref_for_push(&b"refs/tags/v1".to_vec()).unwrap();
    assert_eq!(tip, tag.id);
}

#[test]
fn decode_rejects_garbage() {
    assert_eq!(
        decode_git_object(&b"not an encoding".to_vec()).unwrap_err(),
        RepoError::DecodeError
    );
}

#[test]
fn encoding_round_trips_through_bytes() {
    let g = GitObject {
        git_hash: b"aa".to_vec(),
        raw_data: b"raw".to_vec(),
        metadata: GitObjectMetadata::Commit {
            parent_git_hashes: vec![b"p1".to_vec(), b"p2".to_vec()],
            tree_git_hash: b"tt".to_vec(),
        },
    };
    let bytes = encode_git_object(&g);
    let back = decode_git_object(&bytes).unwrap();
    assert_eq!(back.git_hash, g.git_hash);
    assert_eq!(back.raw_data, g.raw_data);
    match back.metadata {
        GitObjectMetadata::Commit {
            parent_git_hashes,
            tree_git_hash,
        } => {
            assert_eq!(parent_git_hashes, vec![b"p1".to_vec(), b"p2".to_vec()]);
            assert_eq!(tree_git_hash, b"tt".to_vec());
        }
        _ => panic!("wrong variant"),
    }
}

#[test]
fn encoding_round_trips_every_kind() {
    let cases = vec![
        GitObjectMetadata::Blob,
        GitObjectMetadata::Tag {
            target_git_hash: b"target".to_vec(),
        },
        GitObjectMetadata::Tree {
            entry_git_hashes: vec![b"e1".to_vec(), b"e2".to_vec()],
        },
        GitObjectMetadata::Commit {
            parent_git_hashes: vec![],
            tree_git_hash: b"tt".to_vec(),
        },
    ];
    for metadata in cases {
        let g = GitObject {
            git_hash: b"id".to_vec(),
            raw_data: b"raw".to_vec(),
            metadata,
        };
        let bytes = encode_git_object(&g);
        let back = decode_git_object(&bytes).unwrap();
        assert_eq!(encode_git_object(&back), bytes);
        assert_eq!(back.git_hash, g.git_hash);
        assert_eq!(back.raw_data, g.raw_data);
    }
}

#[test]
fn index_encoding_round_trips() {
    let index = RepoData {
        refs: vec![RefEntry {
            name: b"refs/heads/main".to_vec(),
            target: b"tip".to_vec(),
        }],
        objects: vec![b"o1".to_vec(), b"submodule-tip".to_vec()],
    };
    let bytes = inv4_git::encode_repo_data(&index);
    let back = inv4_git::decode_repo_data(&bytes).unwrap();
    assert_eq!(back.objects, index.objects);
    assert_eq!(back.refs.len(), 1);
    assert_eq!(back.refs[0].name, b"refs/heads/main".to_vec());
    assert_eq!(back.refs[0].target, b"tip".to_vec());
}
