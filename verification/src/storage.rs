//! The event store's logic: reading and appending encoded batches under
//! one correlation key, and the options of the backing key-value store.
//!
//! The store itself — a disk-backed key-value store with optimistic
//! transactions — lives outside; this module holds everything that can
//! be said about the bytes it keeps: a key's value is an encoded batch,
//! and appending decodes, pushes one record and re-encodes.

use vstd::prelude::*;

use crate::errors::LaikaResult;
use crate::event::CorrelatedEvent;
use crate::event_serde::{CorrelatedEventCapnpBatch, RecordV, batch_dec, batch_fits, recs_view};
use crate::codec::{json_enc, json_fits, json_dec_at};

verus! {

broadcast use vstd::std_specs::vec::group_vec_axioms, vstd::seq::group_seq_axioms;

/// What a key holds: no batch yet, or the records of its decoded batch.
pub open spec fn stored_records(stored: Option<Seq<u8>>) -> Option<Seq<RecordV>> {
    match stored {
        None => Some(Seq::empty()),
        Some(bytes) => batch_dec(bytes),
    }
}

/// The events stored under one key, in append order.  An absent key
/// holds no events; present bytes fail exactly when they do not decode
/// as a batch of decodable payloads.
pub fn read_events_bytes(stored: Option<&Vec<u8>>) -> (r: LaikaResult<Vec<CorrelatedEvent>>)
    ensures
        match r {
            Ok(events) => {
                &&& stored_records(match stored {
                    Some(b) => Some(b@),
                    None => None,
                }) matches Some(rs)
                &&& events@.len() == rs.len()
                &&& forall|i: int|
                    0 <= i < events@.len() ==> {
                        &&& (#[trigger] events@[i]).received as int == rs[i].0
                        &&& events@[i].correlation_id@ == rs[i].1
                        &&& events@[i].event_type@ == rs[i].2
                        &&& (json_dec_at(rs[i].3, 0) matches Some(vp) && vp.0 == events@[i].data@)
                    }
            },
            Err(_) => match stored {
                None => false,
                Some(b) => batch_dec(b@) is None || (batch_dec(b@) matches Some(rs)
                    && exists|i: int|
                    0 <= i < rs.len() && json_dec_at((#[trigger] rs[i]).3, 0) is None),
            },
        },
{
    match stored {
        None => Ok(Vec::new()),
        Some(bytes) => {
            let batch = match CorrelatedEventCapnpBatch::from_bytes(bytes) {
                Ok(b) => b,
                Err(e) => {
                    return Err(e);
                },
            };
            batch.into_events()
        }
    }
}

/// Append one correlated event to a key's stored batch: the new bytes
/// decode to the old records followed by the event's record, so reads
/// return events in append order.  Fails exactly when the stored bytes
/// do not decode or the batch would no longer fit the format.
pub fn write_event_bytes(stored: Option<&Vec<u8>>, event: CorrelatedEvent) -> (r: LaikaResult<
    Vec<u8>,
>)
    ensures
        match r {
            Ok(bytes) => {
                &&& stored_records(match stored {
                    Some(b) => Some(b@),
                    None => None,
                }) matches Some(rs)
                &&& batch_dec(bytes@) == Some(
                    rs.push(
                        (
                            event.received as int,
                            event.correlation_id@,
                            event.event_type@,
                            json_enc(event.data@),
                        ),
                    ),
                )
                &&& json_fits(event.data@)
            },
            Err(_) => {
                ||| (match stored {
                    Some(b) => batch_dec(b@) is None,
                    None => false,
                })
                ||| !json_fits(event.data@)
                ||| (stored_records(match stored {
                    Some(b) => Some(b@),
                    None => None,
                }) matches Some(rs) && !crate::event_serde::batch_fits(
                    rs.push(
                        (
                            event.received as int,
                            event.correlation_id@,
                            event.event_type@,
                            json_enc(event.data@),
                        ),
                    ),
                ))
            },
        },
{
    let mut batch = match stored {
        None => CorrelatedEventCapnpBatch::new(),
        Some(bytes) => match CorrelatedEventCapnpBatch::from_bytes(bytes) {
            Ok(b) => b,
            Err(e) => {
                return Err(e);
            },
        },
    };
    proof {
        match stored {
            None => {
                assert(recs_view(batch.events@) =~= Seq::<RecordV>::empty());
            }
            Some(_) => {}
        }
    }
    match batch.push_event(event) {
        Ok(_) => {}
        Err(e) => {
            return Err(e);
        }
    }
    let bytes = match batch.to_bytes() {
        Ok(b) => b,
        Err(e) => {
            return Err(e);
        },
    };
    proof {
        crate::event_serde::lemma_batch_round_trip(recs_view(batch.events@));
    }
    Ok(bytes)
}

/// What backs one key-value store: where it lives and its tuning knobs.
#[derive(Debug, Clone, PartialEq, Eq)]
pub struct StorageKVBuilder {
    pub max_total_wal_size: Option<u64>,
    pub parallelism: Option<usize>,
    pub max_background_jobs: Option<usize>,
    pub base_path: String,
}

impl StorageKVBuilder {
    /// A builder for a store rooted at the given path.
    pub fn new(base_path: String) -> (r: StorageKVBuilder)
        ensures
            r.base_path@ == base_path@,
            r.max_total_wal_size is None,
            r.parallelism is None,
            r.max_background_jobs is None,
    {
        StorageKVBuilder {
            max_total_wal_size: None,
            parallelism: None,
            max_background_jobs: None,
            base_path,
        }
    }

    /// Cap the store's total write-ahead log size.
    pub fn max_total_wal_size(self, size: u64) -> (r: StorageKVBuilder)
        ensures
            r.max_total_wal_size == Some(size),
            r.parallelism == self.parallelism,
            r.max_background_jobs == self.max_background_jobs,
            r.base_path@ == self.base_path@,
    {
        StorageKVBuilder { max_total_wal_size: Some(size), ..self }
    }

    /// Set how many threads the store may use.
    pub fn parallelism(self, parallelism: usize) -> (r: StorageKVBuilder)
        ensures
            r.parallelism == Some(parallelism),
            r.max_total_wal_size == self.max_total_wal_size,
            r.max_background_jobs == self.max_background_jobs,
            r.base_path@ == self.base_path@,
    {
        StorageKVBuilder { parallelism: Some(parallelism), ..self }
    }

    /// Set how many background jobs the store may run.
    pub fn max_background_jobs(self, jobs: usize) -> (r: StorageKVBuilder)
        ensures
            r.max_background_jobs == Some(jobs),
            r.max_total_wal_size == self.max_total_wal_size,
            r.parallelism == self.parallelism,
            r.base_path@ == self.base_path@,
    {
        StorageKVBuilder { max_background_jobs: Some(jobs), ..self }
    }

    /// The settings the store opens with: configured values, or the
    /// defaults of ten gibibytes of log, four threads and four jobs.
    pub fn resolved(&self) -> (r: (u64, usize, usize))
        ensures
            r.0 == match self.max_total_wal_size {
                Some(v) => v,
                None => 10_737_418_240u64,
            },
            r.1 == match self.parallelism {
                Some(v) => v,
                None => 4usize,
            },
            r.2 == match self.max_background_jobs {
                Some(v) => v,
                None => 4usize,
            },
    {
        let wal = match self.max_total_wal_size {
            Some(v) => v,
            None => 10_737_418_240u64,
        };
        let par = match self.parallelism {
            Some(v) => v,
            None => 4usize,
        };
        let jobs = match self.max_background_jobs {
            Some(v) => v,
            None => 4usize,
        };
        (wal, par, jobs)
    }
}

/// The byte store the event store runs on: the driver supplies one
/// backed by its key-value store, keyed by correlation key.
pub trait EventStorage {
    /// The bytes stored under a key, if any.
    fn read_bytes(&mut self, key: &String) -> LaikaResult<Option<Vec<u8>>>;

    /// Replace the bytes stored under a key.
    fn write_bytes(&mut self, key: &String, bytes: Vec<u8>) -> LaikaResult<()>;
}

} // verus!
