//! Ledger-side record selection: the pure decisions the engine takes over
//! what the ledger reports. The ledger itself (submission, finality) is
//! driven by the embedding program; the engine only decides which record
//! matches a key and which event carries the newly minted record id.

use vstd::prelude::*;

use crate::errors::RepoError;
use crate::ids::{bytes_eq, index_label, spec_index_label};

verus! {

/// One ledger record, as the read-only record-set query reports it: the
/// numeric id assigned at mint time, the key it was minted under (an object
/// id, or the index label), and the content address it binds the key to.
#[derive(Clone)]
pub struct LedgerRecord {
    pub record_id: u64,
    pub key: Vec<u8>,
    pub content: Vec<u8>,
}

pub struct LedgerRecordView {
    pub record_id: u64,
    pub key: Seq<u8>,
    pub content: Seq<u8>,
}

impl View for LedgerRecord {
    type V = LedgerRecordView;

    open spec fn view(&self) -> LedgerRecordView {
        LedgerRecordView { record_id: self.record_id, key: self.key@, content: self.content@ }
    }
}

impl DeepView for LedgerRecord {
    type V = LedgerRecordView;

    open spec fn deep_view(&self) -> LedgerRecordView {
        self.view()
    }
}

/// One event of a finalized ledger transaction; only the record-minted
/// projection matters to the engine.
#[derive(Clone)]
pub enum LedgerEvent {
    Minted { record_id: u64 },
    Other,
}

/// Finds the first record minted under `key`: the record whose content
/// address locates the transported object with that id.
pub fn find_record_for_key(records: &Vec<LedgerRecord>, key: &Vec<u8>) -> (r: Option<usize>)
    ensures
        match r {
            Some(i) => i < records@.len() && records.deep_view()[i as int].key == key@ && (forall|
                j: int,
            |
                0 <= j < i ==> (#[trigger] records.deep_view()[j]).key != key@),
            None => forall|j: int|
                0 <= j < records@.len() ==> (#[trigger] records.deep_view()[j]).key != key@,
        },
{
    let mut i: usize = 0;
    while i < records.len()
        invariant
            0 <= i <= records@.len(),
            forall|j: int| 0 <= j < i ==> (#[trigger] records.deep_view()[j]).key != key@,
        decreases records.len() - i,
    {
        proof {
            assert(records.deep_view()[i as int] == records[i as int]@);
        }
        if bytes_eq(&records[i].key, key) {
            return Some(i);
        }
        i += 1;
    }
    None
}

/// Extracts the record id from the first record-minted event of a finalized
/// transaction — the earlier events are not minted events. A transaction
/// that finalized without such an event is a fatal inconsistency,
/// `MissingEventError`.
pub fn find_minted_event(events: &Vec<LedgerEvent>) -> (r: Result<u64, RepoError>)
    ensures
        match r {
            Ok(id) => exists|i: int|
                0 <= i < events@.len() && (#[trigger] events@[i]) == (LedgerEvent::Minted {
                    record_id: id,
                }) && (forall|j: int| 0 <= j < i ==> !((#[trigger] events@[j]) is Minted)),
            Err(e) => e == RepoError::MissingEventError && (forall|i: int|
                0 <= i < events@.len() ==> !((#[trigger] events@[i]) is Minted)),
        },
{
    let mut i: usize = 0;
    while i < events.len()
        invariant
            0 <= i <= events@.len(),
            forall|j: int| 0 <= j < i ==> !((#[trigger] events@[j]) is Minted),
        decreases events.len() - i,
    {
        match &events[i] {
            LedgerEvent::Minted { record_id } => {
                proof {
                    assert(events@[i as int] == (LedgerEvent::Minted { record_id: *record_id }));
                }
                return Ok(*record_id);
            },
            LedgerEvent::Other => {},
        }
        i += 1;
    }
    Err(RepoError::MissingEventError)
}

/// After publishing a new index record, finds the first prior record
/// carrying the index label, whose id the caller must retire; the protocol
/// performs no atomic swap.
pub fn find_prior_index_record(records: &Vec<LedgerRecord>) -> (r: Option<u64>)
    ensures
        match r {
            Some(id) => exists|i: int|
                0 <= i < records@.len() && (#[trigger] records.deep_view()[i]).key
                    == spec_index_label() && records.deep_view()[i].record_id == id && (forall|
                    j: int,
                |
                    0 <= j < i ==> (#[trigger] records.deep_view()[j]).key != spec_index_label()),
            None => forall|i: int|
                0 <= i < records@.len() ==> (#[trigger] records.deep_view()[i]).key
                    != spec_index_label(),
        },
{
    let label = index_label();
    match find_record_for_key(records, &label) {
        Some(i) => {
            proof {
                assert(records.deep_view()[i as int].key == spec_index_label());
            }
            Some(records[i].record_id)
        },
        None => None,
    }
}

} // verus!
