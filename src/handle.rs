//! The engine's state: the keydir and the active segment, with the steps of
//! `open`, `put` and `get` that decide rather than do I/O.
use crate::active::{record_size, ActiveFile, ActiveFileView, WriteRecordResult};
use crate::codec::RECORD_HEADER_SIZE;
use crate::config::BitCaskConfig;
use crate::error::EngineError;
use crate::codec::record_bytes;
use crate::keydir::{newer, Entry, Keydir};
use crate::layout::{first_active_id, strictly_ascending, SegmentPlan};
use crate::recovery::{contents, encodable, locates_record, read_value, recover, recovered};
use vstd::bytes::*;
use vstd::prelude::*;

verus! {

pub struct BitCaskHandle {
    keydir: Keydir,
    active_file: ActiveFile,
    last_timestamp: u64,
}

/// The locator that a completed append reports.
pub open spec fn entry_of(w: WriteRecordResult) -> Entry {
    Entry {
        file_id: w.file_id,
        value_pos: w.value_pos,
        value_size: w.value_size,
        timestamp: w.timestamp,
    }
}

impl BitCaskHandle {
    pub closed spec fn keydir_view(&self) -> Map<Seq<u8>, Entry> {
        self.keydir@
    }

    pub closed spec fn active_view(&self) -> ActiveFileView {
        self.active_file@
    }

    /// The largest timestamp handed out or recovered so far.
    pub closed spec fn last_timestamp_view(&self) -> u64 {
        self.last_timestamp
    }

    /// No entry of the keydir is newer than the last timestamp.
    pub open spec fn timestamps_bounded(&self) -> bool {
        forall|k: Seq<u8>|
            #[trigger] self.keydir_view().contains_key(k) ==> self.keydir_view()[k].timestamp
                <= self.last_timestamp_view()
    }

    pub closed spec fn wf(&self) -> bool {
        self.keydir.wf() && self.active_file.wf() && self.timestamps_bounded()
    }

    /// Builds the engine from the bytes of the segments that `plan` lists
    /// (`hint_segments[i]` holding segment `plan.hint_ids[i]`, and likewise for
    /// data). The new active segment gets the id after the largest one, starts
    /// empty, and rotates at the configured size. Fails with `SegmentWrite` when
    /// no id is left for it.
    pub fn open_with_config(
        config: &BitCaskConfig,
        plan: &SegmentPlan,
        hint_segments: &Vec<Vec<u8>>,
        data_segments: &Vec<Vec<u8>>,
    ) -> (r: Result<BitCaskHandle, EngineError>)
        requires
            strictly_ascending(plan.hint_ids@),
            strictly_ascending(plan.data_ids@),
            plan.hint_ids@.len() == hint_segments@.len(),
            plan.data_ids@.len() == data_segments@.len(),
        ensures
            match r {
                Ok(h) => {
                    &&& h.wf()
                    &&& h.keydir_view() == recovered(
                        plan.hint_ids@,
                        contents(hint_segments@),
                        plan.data_ids@,
                        contents(data_segments@),
                    )
                    &&& first_active_id(plan.hint_ids@, plan.data_ids@) == Some(h.active_view().id)
                    &&& h.active_view().id < u64::MAX
                    &&& h.active_view().next_id == h.active_view().id + 1
                    &&& h.active_view().current_pos == 0
                    &&& !h.active_view().torn
                    &&& h.active_view().max_active_file_size == config.max_active_file_size
                    &&& h.timestamps_bounded()
                    &&& h.keydir_view().dom().len() == 0 ==> h.last_timestamp_view() == 0
                    &&& h.keydir_view().dom().len() > 0 ==> exists|k: Seq<u8>|
                        #[trigger] h.keydir_view().contains_key(k) && h.keydir_view()[k].timestamp
                            == h.last_timestamp_view()
                },
                Err(e) => {
                    &&& e == EngineError::SegmentWrite
                    &&& (first_active_id(plan.hint_ids@, plan.data_ids@) is None
                        || first_active_id(plan.hint_ids@, plan.data_ids@) == Some(u64::MAX))
                },
            },
    {
        let id = match plan.next_segment_id() {
            Some(id) => id,
            None => {
                return Err(EngineError::SegmentWrite);
            },
        };
        if id == u64::MAX {
            return Err(EngineError::SegmentWrite);
        }
        let keydir = recover(&plan.hint_ids, hint_segments, &plan.data_ids, data_segments);
        let last_timestamp = keydir.max_timestamp();
        Ok(
            BitCaskHandle {
                keydir,
                active_file: ActiveFile::new(id, 0, config.max_active_file_size),
                last_timestamp,
            },
        )
    }

    pub fn active_file_id(&self) -> (r: u64)
        ensures
            r == self.active_view().id,
    {
        self.active_file.id()
    }

    pub fn last_timestamp(&self) -> (r: u64)
        ensures
            r == self.last_timestamp_view(),
    {
        self.last_timestamp
    }

    /// The timestamp for the next put when the clock reads `now`: `now` if it
    /// is newer than every timestamp so far, else one past the last. Puts thus
    /// get strictly increasing timestamps, also within one millisecond. `None`
    /// when the timestamps are used up.
    pub fn next_timestamp(&self, now: u64) -> (r: Option<u64>)
        ensures
            r == (if now > self.last_timestamp_view() {
                Some(now)
            } else if self.last_timestamp_view() < u64::MAX {
                Some((self.last_timestamp_view() + 1) as u64)
            } else {
                None::<u64>
            }),
            r matches Some(t) ==> t > self.last_timestamp_view(),
    {
        if now > self.last_timestamp {
            Some(now)
        } else if self.last_timestamp < u64::MAX {
            Some(self.last_timestamp + 1)
        } else {
            None
        }
    }

    /// Bytes already in the active segment.
    pub fn current_pos(&self) -> (r: u64)
        ensures
            r == self.active_view().current_pos,
    {
        self.active_file.current_pos()
    }

    /// Id that the next rotation makes active.
    pub fn next_file_id(&self) -> (r: u64)
        ensures
            r == self.active_view().next_id,
    {
        self.active_file.next_id()
    }

    /// The locator of `key`'s newest value, if the key is live.
    pub fn get(&self, key: &[u8]) -> (r: Option<Entry>)
        requires
            self.wf(),
        ensures
            r == (if self.keydir_view().contains_key(key@) {
                Some(self.keydir_view()[key@])
            } else {
                None::<Entry>
            }),
    {
        self.keydir.get(key)
    }

    /// Whether a record with these key and value lengths goes to a new segment.
    pub fn should_rotate(&self, key_len: usize, value_len: usize) -> (r: bool)
        requires
            key_len <= u32::MAX,
            value_len <= u32::MAX,
        ensures
            r == (self.active_view().torn || self.active_view().current_pos + record_size(
                key_len as nat,
                value_len as nat,
            ) >= self.active_view().max_active_file_size),
    {
        self.active_file.should_rotate(RECORD_HEADER_SIZE as u64 + key_len as u64 + value_len as u64)
    }

    /// Makes the next segment active; returns the id of the one to seal.
    pub fn rotate(&mut self) -> (r: Result<u64, EngineError>)
        requires
            old(self).wf(),
        ensures
            final(self).wf(),
            final(self).keydir_view() == old(self).keydir_view(),
            final(self).last_timestamp_view() == old(self).last_timestamp_view(),
            match r {
                Ok(sealed) => {
                    &&& old(self).active_view().next_id < u64::MAX
                    &&& sealed == old(self).active_view().id
                    &&& final(self).active_view().id == old(self).active_view().next_id
                    &&& final(self).active_view().id > old(self).active_view().id
                    &&& final(self).active_view().next_id == final(self).active_view().id + 1
                    &&& final(self).active_view().current_pos == 0
                    &&& !final(self).active_view().torn
                    &&& final(self).active_view().max_active_file_size
                        == old(self).active_view().max_active_file_size
                },
                Err(e) => {
                    &&& old(self).active_view().next_id == u64::MAX
                    &&& e == EngineError::SegmentWrite
                    &&& final(self).active_view() == old(self).active_view()
                },
            },
    {
        let r = self.active_file.rotate();
        assert(self.timestamps_bounded()) by {
            assert forall|k: Seq<u8>| #[trigger] self.keydir_view().contains_key(k) implies self.keydir_view()[k].timestamp
                <= self.last_timestamp_view() by {
                assert(old(self).keydir_view().contains_key(k));
            }
        }
        r
    }

    /// Completes a `put` once its record, stamped with `timestamp` (taken from
    /// `next_timestamp`), has gone to the active segment and `bytes_written` of
    /// its bytes were taken: the offset advances, and a whole write makes the
    /// key's entry the new locator.
    pub fn record_put(&mut self, key: &[u8], value_len: usize, bytes_written: u64, timestamp: u64) -> (r:
        Result<WriteRecordResult, EngineError>)
        requires
            old(self).wf(),
            key@.len() <= u32::MAX,
            value_len <= u32::MAX,
            old(self).active_view().current_pos + bytes_written <= u64::MAX,
            timestamp > old(self).last_timestamp_view(),
        ensures
            final(self).wf(),
            final(self).last_timestamp_view() == timestamp,
            final(self).active_view().max_active_file_size == old(self).active_view().max_active_file_size,
            final(self).active_view().id == old(self).active_view().id,
            final(self).active_view().next_id == old(self).active_view().next_id,
            final(self).active_view().current_pos == old(self).active_view().current_pos
                + bytes_written,
            bytes_written == record_size(key@.len(), value_len as nat) ==> {
                &&& r == Ok::<WriteRecordResult, EngineError>(
                    WriteRecordResult {
                        value_size: value_len,
                        value_pos: (old(self).active_view().current_pos + 16 + key@.len()) as u64,
                        file_id: old(self).active_view().id,
                        timestamp,
                    },
                )
                &&& final(self).keydir_view() == old(self).keydir_view().insert(
                    key@,
                    entry_of(r->Ok_0),
                )
                &&& final(self).active_view().torn == old(self).active_view().torn
            },
            bytes_written != record_size(key@.len(), value_len as nat) ==> {
                &&& r == Err::<WriteRecordResult, EngineError>(EngineError::SegmentWrite)
                &&& final(self).keydir_view() == old(self).keydir_view()
                &&& final(self).active_view().torn
            },
    {
        let res = self.active_file.record_written(key.len(), value_len, bytes_written, timestamp);
        self.last_timestamp = timestamp;
        match res {
            Ok(w) => {
                let e = Entry::new(w.file_id, w.value_pos, w.value_size, w.timestamp);
                assert(newer(old(self).keydir@, key@, e)) by {
                    if old(self).keydir@.contains_key(key@) {
                        assert(old(self).keydir_view().contains_key(key@));
                    }
                }
                self.keydir.update(key, e);
                assert(self.timestamps_bounded()) by {
                    assert forall|k: Seq<u8>| #[trigger] self.keydir_view().contains_key(k) implies self.keydir_view()[k].timestamp
                        <= self.last_timestamp_view() by {
                        if k != key@ {
                            assert(old(self).keydir_view().contains_key(k));
                        }
                    }
                }
                Ok(w)
            },
            Err(e) => {
                assert(self.timestamps_bounded()) by {
                    assert forall|k: Seq<u8>| #[trigger] self.keydir_view().contains_key(k) implies self.keydir_view()[k].timestamp
                        <= self.last_timestamp_view() by {
                        assert(old(self).keydir_view().contains_key(k));
                    }
                }
                Err(e)
            },
        }
    }
}

/// What a positioned read returned, checked against the locator: the bytes when
/// all `value_size` of them came, else `Corruption` at the locator.
pub fn checked_value(entry: Entry, bytes: Vec<u8>) -> (r: Result<Vec<u8>, EngineError>)
    ensures
        bytes@.len() == entry.value_size ==> r == Ok::<Vec<u8>, EngineError>(bytes),
        bytes@.len() != entry.value_size ==> r == Err::<Vec<u8>, EngineError>(
            EngineError::Corruption { segment_id: entry.file_id, offset: entry.value_pos },
        ),
{
    if bytes.len() == entry.value_size {
        Ok(bytes)
    } else {
        Err(EngineError::Corruption { segment_id: entry.file_id, offset: entry.value_pos })
    }
}

/// A put's value reads back whole at the locator that its append reports,
/// when the segment was `segment` before the record went on its end. With
/// `record_put`, which makes that locator the key's entry, and `get`, which
/// returns the entry, a put is read back by the next lookup of its key.
pub proof fn lemma_round_trip(segment: Seq<u8>, id: u64, ts: u64, key: Seq<u8>, value: Seq<u8>)
    requires
        encodable(key, value),
        segment.len() + 16 + key.len() + value.len() <= u64::MAX,
    ensures
        read_value(
            segment + record_bytes(ts, key, value),
            Entry {
                file_id: id,
                value_pos: (segment.len() + 16 + key.len()) as u64,
                value_size: value.len() as usize,
                timestamp: ts,
            },
        ) == value,
{
    lemma_auto_spec_u64_to_from_le_bytes();
    lemma_auto_spec_u32_to_from_le_bytes();
    let e = Entry {
        file_id: id,
        value_pos: (segment.len() + 16 + key.len()) as u64,
        value_size: value.len() as usize,
        timestamp: ts,
    };
    let all = segment + record_bytes(ts, key, value);
    assert(record_bytes(ts, key, value).len() == 16 + key.len() + value.len());
    assert(read_value(all, e) =~= value);
}

/// Every entry of `kd` spans, in the segment it names, the value of a whole
/// record with its key and timestamp.
pub open spec fn locators_valid(kd: Map<Seq<u8>, Entry>, segments: Map<u64, Seq<u8>>) -> bool {
    forall|k: Seq<u8>|
        #[trigger] kd.contains_key(k) ==> segments.contains_key(kd[k].file_id) && locates_record(
            segments[kd[k].file_id],
            k,
            kd[k],
        )
}

proof fn lemma_extend_keeps_record(segment: Seq<u8>, tail: Seq<u8>, key: Seq<u8>, e: Entry)
    requires
        locates_record(segment, key, e),
    ensures
        locates_record(segment + tail, key, e),
{
    let all = segment + tail;
    let start = e.value_pos - 16 - key.len();
    assert(all.subrange(start, e.value_pos + e.value_size) =~= segment.subrange(
        start,
        e.value_pos + e.value_size,
    ));
    assert(read_value(all, e) =~= read_value(segment, e));
}

/// A put keeps every locator valid. Its record, or the part of it that was
/// written, goes on the end of the active segment; after a whole write the
/// key's entry is the new locator, which spans the put's value; after a short
/// write the keydir is unchanged.
pub proof fn lemma_put_keeps_locators(
    kd: Map<Seq<u8>, Entry>,
    segments: Map<u64, Seq<u8>>,
    active_id: u64,
    ts: u64,
    key: Seq<u8>,
    value: Seq<u8>,
    written: nat,
)
    requires
        locators_valid(kd, segments),
        segments.contains_key(active_id),
        encodable(key, value),
        segments[active_id].len() + 16 + key.len() + value.len() <= u64::MAX,
        written <= 16 + key.len() + value.len(),
    ensures
        ({
            let old_seg = segments[active_id];
            let e = Entry {
                file_id: active_id,
                value_pos: (old_seg.len() + 16 + key.len()) as u64,
                value_size: value.len() as usize,
                timestamp: ts,
            };
            let whole = segments.insert(active_id, old_seg + record_bytes(ts, key, value));
            let torn = segments.insert(
                active_id,
                old_seg + record_bytes(ts, key, value).take(written as int),
            );
            &&& locators_valid(kd.insert(key, e), whole)
            &&& read_value(whole[active_id], e) == value
            &&& locators_valid(kd, torn)
        }),
{
    lemma_auto_spec_u64_to_from_le_bytes();
    lemma_auto_spec_u32_to_from_le_bytes();
    let old_seg = segments[active_id];
    let r = record_bytes(ts, key, value);
    assert(r.len() == 16 + key.len() + value.len());
    let e = Entry {
        file_id: active_id,
        value_pos: (old_seg.len() + 16 + key.len()) as u64,
        value_size: value.len() as usize,
        timestamp: ts,
    };
    let whole = segments.insert(active_id, old_seg + r);
    let torn = segments.insert(active_id, old_seg + r.take(written as int));
    lemma_round_trip(old_seg, active_id, ts, key, value);
    assert((old_seg + r).subrange(old_seg.len() as int, (old_seg.len() + r.len()) as int) =~= r);
    assert(locates_record(whole[active_id], key, e));
    assert forall|k: Seq<u8>| #[trigger] kd.insert(key, e).contains_key(k) implies whole.contains_key(
        kd.insert(key, e)[k].file_id,
    ) && locates_record(whole[kd.insert(key, e)[k].file_id], k, kd.insert(key, e)[k]) by {
        if k != key {
            let f = kd[k].file_id;
            if f == active_id {
                lemma_extend_keeps_record(old_seg, r, k, kd[k]);
            }
        }
    }
    assert forall|k: Seq<u8>| #[trigger] kd.contains_key(k) implies torn.contains_key(kd[k].file_id)
        && locates_record(torn[kd[k].file_id], k, kd[k]) by {
        if kd[k].file_id == active_id {
            lemma_extend_keeps_record(old_seg, r.take(written as int), k, kd[k]);
        }
    }
}

} // verus!
