//! The decisions of the append path: when to rotate, which id comes next, and
//! where an appended value lands.
use crate::codec::RECORD_HEADER_SIZE;
use crate::error::EngineError;
use vstd::prelude::*;

verus! {

/// Where an appended record's value landed.
#[derive(Clone, Copy, Debug, PartialEq, Eq, Structural)]
pub struct WriteRecordResult {
    pub value_size: usize,
    pub value_pos: u64,
    pub file_id: u64,
    pub timestamp: u64,
}

/// The state of the active segment, as seen by the append path.
pub struct ActiveFile {
    id: u64,
    next_id: u64,
    current_pos: u64,
    max_active_file_size: u64,
    torn: bool,
}

pub struct ActiveFileView {
    pub id: u64,
    pub next_id: u64,
    pub current_pos: u64,
    pub max_active_file_size: u64,
    /// A short write left a partial record at the tail.
    pub torn: bool,
}

impl View for ActiveFile {
    type V = ActiveFileView;

    closed spec fn view(&self) -> ActiveFileView {
        ActiveFileView {
            id: self.id,
            next_id: self.next_id,
            current_pos: self.current_pos,
            max_active_file_size: self.max_active_file_size,
            torn: self.torn,
        }
    }
}

/// Bytes that a record with these key and value lengths takes.
pub open spec fn record_size(key_len: nat, value_len: nat) -> nat {
    16 + key_len + value_len
}

impl ActiveFile {
    /// The active id is below every id still to be handed out.
    pub open spec fn wf(&self) -> bool {
        self@.id < self@.next_id
    }

    /// The active segment `initial_id`, already `current_pos` bytes long.
    pub fn new(initial_id: u64, current_pos: u64, max_active_file_size: u64) -> (r: ActiveFile)
        requires
            initial_id < u64::MAX,
        ensures
            r.wf(),
            r@ == (ActiveFileView {
                id: initial_id,
                next_id: (initial_id + 1) as u64,
                current_pos,
                max_active_file_size,
                torn: false,
            }),
    {
        ActiveFile {
            id: initial_id,
            next_id: initial_id + 1,
            current_pos,
            max_active_file_size,
            torn: false,
        }
    }

    pub fn id(&self) -> (r: u64)
        ensures
            r == self@.id,
    {
        self.id
    }

    /// Id that the next rotation makes active.
    pub fn next_id(&self) -> (r: u64)
        ensures
            r == self@.next_id,
    {
        self.next_id
    }

    pub fn current_pos(&self) -> (r: u64)
        ensures
            r == self@.current_pos,
    {
        self.current_pos
    }

    /// A record of `record_size` bytes must go to a new segment: it would bring
    /// the active one to the threshold or past it, or a torn tail is to be
    /// abandoned.
    pub fn should_rotate(&self, record_size: u64) -> (r: bool)
        ensures
            r == (self@.torn || self@.current_pos + record_size >= self@.max_active_file_size),
    {
        self.torn || self.current_pos as u128 + record_size as u128
            >= self.max_active_file_size as u128
    }

    /// Makes the next id active, at offset 0, and returns the id of the segment
    /// to seal. Fails, changing nothing, when the ids are used up.
    pub fn rotate(&mut self) -> (r: Result<u64, EngineError>)
        requires
            old(self).wf(),
        ensures
            final(self).wf(),
            match r {
                Ok(sealed) => {
                    &&& old(self)@.next_id < u64::MAX
                    &&& sealed == old(self)@.id
                    &&& final(self)@ == (ActiveFileView {
                        id: old(self)@.next_id,
                        next_id: (old(self)@.next_id + 1) as u64,
                        current_pos: 0,
                        torn: false,
                        ..old(self)@
                    })
                    &&& final(self)@.id > old(self)@.id
                },
                Err(e) => {
                    &&& old(self)@.next_id == u64::MAX
                    &&& e == EngineError::SegmentWrite
                    &&& final(self)@ == old(self)@
                },
            },
    {
        if self.next_id == u64::MAX {
            return Err(EngineError::SegmentWrite);
        }
        let sealed = self.id;
        self.id = self.next_id;
        self.next_id = self.next_id + 1;
        self.current_pos = 0;
        self.torn = false;
        Ok(sealed)
    }

    /// Accounts for a write of a record with these key and value lengths of
    /// which `bytes_written` bytes were taken. The offset always advances by
    /// `bytes_written`; a short write marks the tail torn and fails.
    pub fn record_written(
        &mut self,
        key_len: usize,
        value_len: usize,
        bytes_written: u64,
        timestamp: u64,
    ) -> (r: Result<WriteRecordResult, EngineError>)
        requires
            key_len <= u32::MAX,
            value_len <= u32::MAX,
            old(self)@.current_pos + bytes_written <= u64::MAX,
        ensures
            final(self)@.id == old(self)@.id,
            final(self)@.next_id == old(self)@.next_id,
            final(self)@.max_active_file_size == old(self)@.max_active_file_size,
            final(self)@.current_pos == old(self)@.current_pos + bytes_written,
            bytes_written == record_size(key_len as nat, value_len as nat) ==> {
                &&& final(self)@.torn == old(self)@.torn
                &&& r == Ok::<WriteRecordResult, EngineError>(
                    WriteRecordResult {
                        value_size: value_len,
                        value_pos: (old(self)@.current_pos + 16 + key_len) as u64,
                        file_id: old(self)@.id,
                        timestamp,
                    },
                )
            },
            bytes_written != record_size(key_len as nat, value_len as nat) ==> {
                &&& final(self)@.torn
                &&& r == Err::<WriteRecordResult, EngineError>(EngineError::SegmentWrite)
            },
    {
        let start = self.current_pos;
        self.current_pos = start + bytes_written;
        if bytes_written != RECORD_HEADER_SIZE as u64 + key_len as u64 + value_len as u64 {
            self.torn = true;
            return Err(EngineError::SegmentWrite);
        }
        Ok(
            WriteRecordResult {
                value_size: value_len,
                value_pos: start + RECORD_HEADER_SIZE as u64 + key_len as u64,
                file_id: self.id,
                timestamp,
            },
        )
    }
}

} // verus!
