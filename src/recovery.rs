//! Rebuilding the keydir from the bytes of hint and data segments.
use crate::codec::{
    read_u32_at, read_u64_at, record_bytes, u32_at, u64_at, HINT_HEADER_SIZE,
    RECORD_HEADER_SIZE,
};
use vstd::bytes::*;
use crate::keydir::{lww_merge, lww_update, newer, Entry, Keydir};
use crate::layout::{named_ids, planned, segment_name, strictly_ascending, SegmentKind};
use vstd::prelude::*;
use vstd::slice::slice_subrange;

verus! {

/// The index of a data segment from byte `pos` on, folded into `acc`. Each
/// complete record is applied last-writer-wins; a header, key or value cut
/// short by the end of the bytes ends the scan.
pub open spec fn data_index_from(id: u64, bytes: Seq<u8>, pos: int, acc: Map<Seq<u8>, Entry>) -> Map<
    Seq<u8>,
    Entry,
>
    decreases bytes.len() - pos,
{
    if pos + 16 > bytes.len() {
        acc
    } else {
        let key_len = u32_at(bytes, pos + 8) as int;
        let value_len = u32_at(bytes, pos + 12) as int;
        let end = pos + 16 + key_len + value_len;
        if end > bytes.len() {
            acc
        } else {
            let key = bytes.subrange(pos + 16, pos + 16 + key_len);
            let e = Entry {
                file_id: id,
                value_pos: (pos + 16 + key_len) as u64,
                value_size: value_len as usize,
                timestamp: u64_at(bytes, pos),
            };
            data_index_from(id, bytes, end, lww_update(acc, key, e))
        }
    }
}

/// The keydir that one data segment yields on its own.
pub open spec fn data_index(id: u64, bytes: Seq<u8>) -> Map<Seq<u8>, Entry> {
    data_index_from(id, bytes, 0, Map::empty())
}

/// The index of a hint segment from byte `pos` on, folded into `acc`; a later
/// entry for a key replaces an earlier one, and an entry cut short ends the scan.
pub open spec fn hint_index_from(id: u64, bytes: Seq<u8>, pos: int, acc: Map<Seq<u8>, Entry>) -> Map<
    Seq<u8>,
    Entry,
>
    decreases bytes.len() - pos,
{
    if pos + 24 > bytes.len() {
        acc
    } else {
        let key_len = u32_at(bytes, pos + 8) as int;
        let end = pos + 24 + key_len;
        if end > bytes.len() {
            acc
        } else {
            let key = bytes.subrange(pos + 24, end);
            let e = Entry {
                file_id: id,
                value_pos: u64_at(bytes, pos + 16),
                value_size: u32_at(bytes, pos + 12) as usize,
                timestamp: u64_at(bytes, pos),
            };
            hint_index_from(id, bytes, end, acc.insert(key, e))
        }
    }
}

/// The keydir that one hint segment yields on its own.
pub open spec fn hint_index(id: u64, bytes: Seq<u8>) -> Map<Seq<u8>, Entry> {
    hint_index_from(id, bytes, 0, Map::empty())
}

/// Decodes a data segment into the keydir it yields on its own.
pub fn decode_data_segment(id: u64, bytes: &[u8]) -> (r: Keydir)
    ensures
        r.wf(),
        r@ == data_index(id, bytes@),
{
    let mut kd = Keydir::new();
    let mut pos: usize = 0;
    let n = bytes.len();
    loop
        invariant
            kd.wf(),
            n == bytes@.len(),
            pos <= n,
            data_index(id, bytes@) == data_index_from(id, bytes@, pos as int, kd@),
        decreases n - pos,
    {
        if n - pos < RECORD_HEADER_SIZE {
            return kd;
        }
        let timestamp = read_u64_at(bytes, pos);
        let key_len = read_u32_at(bytes, pos + 8) as usize;
        let value_len = read_u32_at(bytes, pos + 12) as usize;
        let rest = n - pos - RECORD_HEADER_SIZE;
        if key_len > rest || value_len > rest - key_len {
            return kd;
        }
        let key_start = pos + RECORD_HEADER_SIZE;
        let value_pos = key_start + key_len;
        let key = slice_subrange(bytes, key_start, value_pos);
        kd.update(key, Entry::new(id, value_pos as u64, value_len, timestamp));
        pos = value_pos + value_len;
    }
}

/// Decodes a hint segment into the keydir it yields on its own.
pub fn decode_hint_segment(id: u64, bytes: &[u8]) -> (r: Keydir)
    ensures
        r.wf(),
        r@ == hint_index(id, bytes@),
{
    let mut kd = Keydir::new();
    let mut pos: usize = 0;
    let n = bytes.len();
    loop
        invariant
            kd.wf(),
            n == bytes@.len(),
            pos <= n,
            hint_index(id, bytes@) == hint_index_from(id, bytes@, pos as int, kd@),
        decreases n - pos,
    {
        if n - pos < HINT_HEADER_SIZE {
            return kd;
        }
        let timestamp = read_u64_at(bytes, pos);
        let key_len = read_u32_at(bytes, pos + 8) as usize;
        let value_len = read_u32_at(bytes, pos + 12) as usize;
        let value_pos = read_u64_at(bytes, pos + 16);
        if key_len > n - pos - HINT_HEADER_SIZE {
            return kd;
        }
        let key_start = pos + HINT_HEADER_SIZE;
        let key = slice_subrange(bytes, key_start, key_start + key_len);
        kd.insert(key, Entry::new(id, value_pos, value_len, timestamp));
        pos = key_start + key_len;
    }
}

/// Last-writer-wins merge of a sequence of indexes, in order.
pub open spec fn merge_all(indexes: Seq<Map<Seq<u8>, Entry>>) -> Map<Seq<u8>, Entry>
    decreases indexes.len(),
{
    if indexes.len() == 0 {
        Map::empty()
    } else {
        lww_merge(merge_all(indexes.drop_last()), indexes.last())
    }
}

/// The indexes of the given hint segments, in order.
pub open spec fn hint_indexes(ids: Seq<u64>, segments: Seq<Seq<u8>>) -> Seq<Map<Seq<u8>, Entry>> {
    Seq::new(ids.len(), |i: int| hint_index(ids[i], segments[i]))
}

/// The indexes of the given data segments, in order.
pub open spec fn data_indexes(ids: Seq<u64>, segments: Seq<Seq<u8>>) -> Seq<Map<Seq<u8>, Entry>> {
    Seq::new(ids.len(), |i: int| data_index(ids[i], segments[i]))
}

/// The keydir that recovery builds: every hint segment merged in order, then
/// every data segment, each last-writer-wins.
pub open spec fn recovered(
    hint_ids: Seq<u64>,
    hint_segments: Seq<Seq<u8>>,
    data_ids: Seq<u64>,
    data_segments: Seq<Seq<u8>>,
) -> Map<Seq<u8>, Entry> {
    merge_all(hint_indexes(hint_ids, hint_segments) + data_indexes(data_ids, data_segments))
}

/// The bytes that each of a list of segment buffers holds.
pub open spec fn contents(segments: Seq<Vec<u8>>) -> Seq<Seq<u8>> {
    segments.map_values(|s: Vec<u8>| s@)
}

/// Rebuilds the keydir from the bytes of the hint segments and then of the data
/// segments, `hint_segments[i]` holding segment `hint_ids[i]`.
pub fn recover(
    hint_ids: &Vec<u64>,
    hint_segments: &Vec<Vec<u8>>,
    data_ids: &Vec<u64>,
    data_segments: &Vec<Vec<u8>>,
) -> (r: Keydir)
    requires
        hint_ids@.len() == hint_segments@.len(),
        data_ids@.len() == data_segments@.len(),
    ensures
        r.wf(),
        r@ == recovered(hint_ids@, contents(hint_segments@), data_ids@, contents(data_segments@)),
{
    let ghost all = hint_indexes(hint_ids@, contents(hint_segments@)) + data_indexes(
        data_ids@,
        contents(data_segments@),
    );
    let mut kd = Keydir::new();
    let mut i: usize = 0;
    assert(all.take(0) =~= Seq::<Map<Seq<u8>, Entry>>::empty());
    while i < hint_ids.len()
        invariant
            kd.wf(),
            i <= hint_ids@.len(),
            hint_ids@.len() == hint_segments@.len(),
            all == hint_indexes(hint_ids@, contents(hint_segments@)) + data_indexes(
                data_ids@,
                contents(data_segments@),
            ),
            kd@ == merge_all(all.take(i as int)),
        decreases hint_ids@.len() - i,
    {
        let local = decode_hint_segment(hint_ids[i], hint_segments[i].as_slice());
        kd.merge(&local);
        assert(all.take(i + 1).drop_last() =~= all.take(i as int));
        i = i + 1;
    }
    let nh = hint_ids.len();
    let mut j: usize = 0;
    while j < data_ids.len()
        invariant
            kd.wf(),
            j <= data_ids@.len(),
            nh == hint_ids@.len(),
            data_ids@.len() == data_segments@.len(),
            all == hint_indexes(hint_ids@, contents(hint_segments@)) + data_indexes(
                data_ids@,
                contents(data_segments@),
            ),
            kd@ == merge_all(all.take(nh + j)),
        decreases data_ids@.len() - j,
    {
        let local = decode_data_segment(data_ids[j], data_segments[j].as_slice());
        kd.merge(&local);
        assert(all.take(nh + j + 1).drop_last() =~= all.take(nh + j));
        j = j + 1;
    }
    assert(all.take(nh + j) =~= all);
    kd
}

/// A key and value fit the 32-bit length fields of a record.
pub open spec fn encodable(key: Seq<u8>, value: Seq<u8>) -> bool {
    key.len() <= u32::MAX && value.len() <= u32::MAX
}

/// The bytes of a run of records `(timestamp, key, value)`, one after another.
pub open spec fn records_bytes(rs: Seq<(u64, Seq<u8>, Seq<u8>)>) -> Seq<u8>
    decreases rs.len(),
{
    if rs.len() == 0 {
        Seq::empty()
    } else {
        record_bytes(rs[0].0, rs[0].1, rs[0].2) + records_bytes(rs.drop_first())
    }
}

/// The keydir `acc` after the records `rs`, starting at byte `pos` of segment
/// `id`, are applied one by one, last-writer-wins.
pub open spec fn fold_records(
    acc: Map<Seq<u8>, Entry>,
    id: u64,
    pos: int,
    rs: Seq<(u64, Seq<u8>, Seq<u8>)>,
) -> Map<Seq<u8>, Entry>
    decreases rs.len(),
{
    if rs.len() == 0 {
        acc
    } else {
        let (ts, key, value) = rs[0];
        let e = Entry {
            file_id: id,
            value_pos: (pos + 16 + key.len()) as u64,
            value_size: value.len() as usize,
            timestamp: ts,
        };
        fold_records(
            lww_update(acc, key, e),
            id,
            pos + record_bytes(ts, key, value).len(),
            rs.drop_first(),
        )
    }
}

/// The bytes that a locator spans.
pub open spec fn read_value(segment: Seq<u8>, e: Entry) -> Seq<u8> {
    segment.subrange(e.value_pos as int, e.value_pos + e.value_size)
}

/// `e` spans the value of a whole record of `segment` with key `key` and
/// timestamp `e.timestamp`.
pub open spec fn locates_record(segment: Seq<u8>, key: Seq<u8>, e: Entry) -> bool {
    let start = e.value_pos - 16 - key.len();
    &&& 0 <= start
    &&& e.value_pos + e.value_size <= segment.len()
    &&& segment.subrange(start, e.value_pos + e.value_size) == record_bytes(
        e.timestamp,
        key,
        read_value(segment, e),
    )
}

proof fn lemma_record_len(ts: u64, key: Seq<u8>, value: Seq<u8>)
    ensures
        record_bytes(ts, key, value).len() == 16 + key.len() + value.len(),
{
    lemma_auto_spec_u64_to_from_le_bytes();
    lemma_auto_spec_u32_to_from_le_bytes();
}

/// Scanning a whole record takes one step past it.
proof fn lemma_step_record(
    id: u64,
    bytes: Seq<u8>,
    pos: int,
    acc: Map<Seq<u8>, Entry>,
    ts: u64,
    key: Seq<u8>,
    value: Seq<u8>,
)
    requires
        encodable(key, value),
        0 <= pos,
        pos + record_bytes(ts, key, value).len() <= bytes.len(),
        bytes.subrange(pos, pos + record_bytes(ts, key, value).len()) == record_bytes(ts, key, value),
    ensures
        data_index_from(id, bytes, pos, acc) == data_index_from(
            id,
            bytes,
            pos + record_bytes(ts, key, value).len(),
            lww_update(
                acc,
                key,
                Entry {
                    file_id: id,
                    value_pos: (pos + 16 + key.len()) as u64,
                    value_size: value.len() as usize,
                    timestamp: ts,
                },
            ),
        ),
{
    lemma_auto_spec_u64_to_from_le_bytes();
    lemma_auto_spec_u32_to_from_le_bytes();
    let r = record_bytes(ts, key, value);
    let kl = key.len() as u32;
    let vl = value.len() as u32;
    assert(r.len() == 16 + key.len() + value.len());
    assert(bytes.subrange(pos, pos + 8) =~= r.subrange(0, 8));
    assert(r.subrange(0, 8) =~= spec_u64_to_le_bytes(ts));
    assert(bytes.subrange(pos + 8, pos + 12) =~= r.subrange(8, 12));
    assert(r.subrange(8, 12) =~= spec_u32_to_le_bytes(kl));
    assert(bytes.subrange(pos + 12, pos + 16) =~= r.subrange(12, 16));
    assert(r.subrange(12, 16) =~= spec_u32_to_le_bytes(vl));
    assert(u64_at(bytes, pos) == ts);
    assert(u32_at(bytes, pos + 8) == kl);
    assert(u32_at(bytes, pos + 12) == vl);
    assert(bytes.subrange(pos + 16, pos + 16 + key.len()) =~= r.subrange(16, 16 + key.len() as int));
    assert(r.subrange(16, 16 + key.len() as int) =~= key);
}

/// Scanning a run of whole records applies each of them in turn.
pub proof fn lemma_scan_records(
    id: u64,
    bytes: Seq<u8>,
    pos: int,
    acc: Map<Seq<u8>, Entry>,
    rs: Seq<(u64, Seq<u8>, Seq<u8>)>,
)
    requires
        forall|i: int| 0 <= i < rs.len() ==> encodable(#[trigger] rs[i].1, rs[i].2),
        0 <= pos,
        pos + records_bytes(rs).len() <= bytes.len(),
        bytes.subrange(pos, pos + records_bytes(rs).len()) == records_bytes(rs),
    ensures
        data_index_from(id, bytes, pos, acc) == data_index_from(
            id,
            bytes,
            pos + records_bytes(rs).len(),
            fold_records(acc, id, pos, rs),
        ),
    decreases rs.len(),
{
    if rs.len() > 0 {
        let (ts, key, value) = rs[0];
        assert(encodable(rs[0].1, rs[0].2));
        let r = record_bytes(ts, key, value);
        let rest = records_bytes(rs.drop_first());
        assert(records_bytes(rs) == r + rest);
        assert(bytes.subrange(pos, pos + r.len()) =~= records_bytes(rs).subrange(0, r.len() as int));
        assert(records_bytes(rs).subrange(0, r.len() as int) =~= r);
        lemma_step_record(id, bytes, pos, acc, ts, key, value);
        let e = Entry {
            file_id: id,
            value_pos: (pos + 16 + key.len()) as u64,
            value_size: value.len() as usize,
            timestamp: ts,
        };
        assert forall|i: int| 0 <= i < rs.drop_first().len() implies encodable(
            #[trigger] rs.drop_first()[i].1,
            rs.drop_first()[i].2,
        ) by {
            assert(rs.drop_first()[i] == rs[i + 1]);
        }
        assert(bytes.subrange(pos + r.len(), pos + r.len() + rest.len()) =~= records_bytes(
            rs,
        ).subrange(r.len() as int, records_bytes(rs).len() as int));
        assert(records_bytes(rs).subrange(r.len() as int, records_bytes(rs).len() as int)
            =~= rest);
        lemma_scan_records(id, bytes, pos + r.len(), lww_update(acc, key, e), rs.drop_first());
    }
}

/// A data segment made of whole records indexes every one of them, in order,
/// last-writer-wins; and when the segment ends in a record cut short anywhere
/// before its last byte, recovery accepts it and indexes exactly the records
/// before it.
pub proof fn lemma_torn_tail(
    id: u64,
    rs: Seq<(u64, Seq<u8>, Seq<u8>)>,
    ts: u64,
    key: Seq<u8>,
    value: Seq<u8>,
    cut: int,
)
    requires
        forall|i: int| 0 <= i < rs.len() ==> encodable(#[trigger] rs[i].1, rs[i].2),
        encodable(key, value),
        0 <= cut < record_bytes(ts, key, value).len(),
    ensures
        data_index(id, records_bytes(rs)) == fold_records(Map::empty(), id, 0, rs),
        data_index(id, records_bytes(rs) + record_bytes(ts, key, value).take(cut)) == data_index(
            id,
            records_bytes(rs),
        ),
{
    let whole = records_bytes(rs);
    let r = record_bytes(ts, key, value);
    let torn = whole + r.take(cut);
    assert(whole.subrange(0, whole.len() as int) =~= whole);
    lemma_scan_records(id, whole, 0, Map::empty(), rs);
    assert(torn.subrange(0, whole.len() as int) =~= whole);
    lemma_scan_records(id, torn, 0, Map::empty(), rs);
    let acc = fold_records(Map::empty(), id, 0, rs);
    let p = whole.len() as int;
    lemma_auto_spec_u64_to_from_le_bytes();
    lemma_auto_spec_u32_to_from_le_bytes();
    if p + 16 <= torn.len() {
        assert(torn.subrange(p + 8, p + 12) =~= r.subrange(8, 12));
        assert(r.subrange(8, 12) =~= spec_u32_to_le_bytes(key.len() as u32));
        assert(torn.subrange(p + 12, p + 16) =~= r.subrange(12, 16));
        assert(r.subrange(12, 16) =~= spec_u32_to_le_bytes(value.len() as u32));
        assert(u32_at(torn, p + 8) == key.len());
        assert(u32_at(torn, p + 12) == value.len());
    }
    assert(data_index_from(id, torn, p, acc) == acc);
}

/// Every locator that a data segment yields spans the value of a whole record
/// of that segment, under the same key and timestamp.
pub proof fn lemma_data_index_locates(id: u64, bytes: Seq<u8>)
    requires
        bytes.len() <= u64::MAX,
    ensures
        forall|k: Seq<u8>|
            #[trigger] data_index(id, bytes).contains_key(k) ==> data_index(id, bytes)[k].file_id
                == id && locates_record(bytes, k, data_index(id, bytes)[k]),
{
    lemma_index_locates_from(id, bytes, 0, Map::empty());
}

proof fn lemma_index_locates_from(id: u64, bytes: Seq<u8>, pos: int, acc: Map<Seq<u8>, Entry>)
    requires
        0 <= pos,
        bytes.len() <= u64::MAX,
        forall|k: Seq<u8>|
            #[trigger] acc.contains_key(k) ==> acc[k].file_id == id && locates_record(
                bytes,
                k,
                acc[k],
            ),
    ensures
        forall|k: Seq<u8>|
            #[trigger] data_index_from(id, bytes, pos, acc).contains_key(k) ==> data_index_from(
                id,
                bytes,
                pos,
                acc,
            )[k].file_id == id && locates_record(bytes, k, data_index_from(id, bytes, pos, acc)[k]),
    decreases bytes.len() - pos,
{
    if pos + 16 <= bytes.len() {
        let key_len = u32_at(bytes, pos + 8) as int;
        let value_len = u32_at(bytes, pos + 12) as int;
        let end = pos + 16 + key_len + value_len;
        if end <= bytes.len() {
            let key = bytes.subrange(pos + 16, pos + 16 + key_len);
            let e = Entry {
                file_id: id,
                value_pos: (pos + 16 + key_len) as u64,
                value_size: value_len as usize,
                timestamp: u64_at(bytes, pos),
            };
            lemma_auto_spec_u64_to_from_le_bytes();
            lemma_auto_spec_u32_to_from_le_bytes();
            let value = read_value(bytes, e);
            assert(key.len() as u32 == u32_at(bytes, pos + 8));
            assert(value.len() as u32 == u32_at(bytes, pos + 12));
            assert(e.value_pos == pos + 16 + key_len);
            assert(bytes.subrange(pos, end) =~= record_bytes(e.timestamp, key, value)) by {
                assert(bytes.subrange(pos, end) =~= bytes.subrange(pos, pos + 8) + bytes.subrange(
                    pos + 8,
                    pos + 12,
                ) + bytes.subrange(pos + 12, pos + 16) + key + value);
                assert(spec_u64_to_le_bytes(u64_at(bytes, pos)) == bytes.subrange(pos, pos + 8));
                assert(spec_u32_to_le_bytes(u32_at(bytes, pos + 8)) == bytes.subrange(
                    pos + 8,
                    pos + 12,
                ));
                assert(spec_u32_to_le_bytes(u32_at(bytes, pos + 12)) == bytes.subrange(
                    pos + 12,
                    pos + 16,
                ));
            }
            assert(locates_record(bytes, key, e));
            let acc1 = lww_update(acc, key, e);
            assert forall|k: Seq<u8>| #[trigger] acc1.contains_key(k) implies acc1[k].file_id == id
                && locates_record(bytes, k, acc1[k]) by {
                if k != key {
                    assert(acc.contains_key(k));
                }
            }
            lemma_index_locates_from(id, bytes, end, acc1);
            assert(data_index_from(id, bytes, pos, acc) == data_index_from(id, bytes, end, acc1));
        }
    }
}

/// Puts recorded in a data segment recover, for each key, to the newest put
/// of that key: the key is indexed exactly when some record holds it, no
/// record of it is newer, and the recovered timestamp is that of one of them.
pub proof fn lemma_last_writer_wins(id: u64, key: Seq<u8>, rs: Seq<(u64, Seq<u8>, Seq<u8>)>)
    requires
        forall|i: int| 0 <= i < rs.len() ==> encodable(#[trigger] rs[i].1, rs[i].2),
    ensures
        data_index(id, records_bytes(rs)).contains_key(key) <==> exists|i: int|
            0 <= i < rs.len() && (#[trigger] rs[i]).1 == key,
        forall|i: int|
            0 <= i < rs.len() && (#[trigger] rs[i]).1 == key ==> rs[i].0 <= data_index(
                id,
                records_bytes(rs),
            )[key].timestamp,
        data_index(id, records_bytes(rs)).contains_key(key) ==> exists|i: int|
            0 <= i < rs.len() && (#[trigger] rs[i]).1 == key && rs[i].0 == data_index(
                id,
                records_bytes(rs),
            )[key].timestamp,
{
    lemma_record_len(0, Seq::empty(), Seq::empty());
    lemma_torn_tail(id, rs, 0, Seq::empty(), Seq::empty(), 0);
    lemma_fold_key(Map::empty(), id, 0, key, rs);
}

/// Puts recorded across several data segments, as rotation and restarts
/// leave them, recover to the newest put of each key: no record of the key is
/// newer than the recovered entry, whose timestamp is that of a record of the
/// key in the segment that the entry points into.
pub proof fn lemma_last_writer_wins_across_segments(
    ids: Seq<u64>,
    segments: Seq<Seq<(u64, Seq<u8>, Seq<u8>)>>,
    key: Seq<u8>,
)
    requires
        ids.len() == segments.len(),
        forall|j: int, i: int|
            0 <= j < segments.len() && 0 <= i < segments[j].len() ==> encodable(
                #[trigger] segments[j][i].1,
                segments[j][i].2,
            ),
    ensures
        ({
            let kd = recovered(
                Seq::empty(),
                Seq::empty(),
                ids,
                segments.map_values(|rs: Seq<(u64, Seq<u8>, Seq<u8>)>| records_bytes(rs)),
            );
            &&& forall|j: int, i: int|
                0 <= j < segments.len() && 0 <= i < segments[j].len() && (
                #[trigger] segments[j][i]).1 == key ==> kd.contains_key(key) && segments[j][i].0
                    <= kd[key].timestamp
            &&& kd.contains_key(key) ==> exists|j: int, i: int|
                0 <= j < segments.len() && 0 <= i < segments[j].len() && (
                #[trigger] segments[j][i]).1 == key && segments[j][i].0 == kd[key].timestamp
                    && ids[j] == kd[key].file_id
        }),
{
    let bytes = segments.map_values(|rs: Seq<(u64, Seq<u8>, Seq<u8>)>| records_bytes(rs));
    let all = hint_indexes(Seq::empty(), Seq::empty()) + data_indexes(ids, bytes);
    assert(all =~= data_indexes(ids, bytes));
    let kd = merge_all(all);
    lemma_merge_keeps_newest(all, key);
    assert forall|j: int| 0 <= j < segments.len() implies #[trigger] all[j] == data_index(
        ids[j],
        records_bytes(segments[j]),
    ) && (forall|i: int| 0 <= i < segments[j].len() ==> encodable(
        #[trigger] segments[j][i].1,
        segments[j][i].2,
    )) by {
        assert(bytes[j] == records_bytes(segments[j]));
    }
    assert forall|j: int, i: int|
        0 <= j < segments.len() && 0 <= i < segments[j].len() && (#[trigger] segments[j][i]).1
            == key implies kd.contains_key(key) && segments[j][i].0 <= kd[key].timestamp by {
        assert(all[j] == data_index(ids[j], records_bytes(segments[j])));
        lemma_last_writer_wins(ids[j], key, segments[j]);
        assert(segments[j][i] == segments[j][i]);
        assert(all[j].contains_key(key));
    }
    if kd.contains_key(key) {
        let j = choose|j: int|
            0 <= j < all.len() && (#[trigger] all[j]).contains_key(key) && all[j][key] == kd[key];
        assert(all[j] == data_index(ids[j], records_bytes(segments[j])));
        lemma_last_writer_wins(ids[j], key, segments[j]);
        lemma_data_index_ids(ids[j], records_bytes(segments[j]), 0, Map::empty());
        let i = choose|i: int|
            0 <= i < segments[j].len() && (#[trigger] segments[j][i]).1 == key && segments[j][i].0
                == all[j][key].timestamp;
        assert(segments[j][i].1 == key && segments[j][i].0 == kd[key].timestamp && ids[j]
            == kd[key].file_id);
    }
}

/// Merging segment indexes keeps, for each key, an entry that one of them
/// holds, and none of them holds a newer one.
pub proof fn lemma_merge_keeps_newest(indexes: Seq<Map<Seq<u8>, Entry>>, key: Seq<u8>)
    ensures
        merge_all(indexes).contains_key(key) <==> exists|i: int|
            0 <= i < indexes.len() && (#[trigger] indexes[i]).contains_key(key),
        forall|i: int|
            0 <= i < indexes.len() && (#[trigger] indexes[i]).contains_key(key)
                ==> indexes[i][key].timestamp <= merge_all(indexes)[key].timestamp,
        merge_all(indexes).contains_key(key) ==> exists|i: int|
            0 <= i < indexes.len() && (#[trigger] indexes[i]).contains_key(key) && indexes[i][key]
                == merge_all(indexes)[key],
    decreases indexes.len(),
{
    if indexes.len() > 0 {
        let init = indexes.drop_last();
        let n = indexes.len() - 1;
        lemma_merge_keeps_newest(init, key);
        assert forall|i: int| 0 <= i < init.len() implies #[trigger] init[i] == indexes[i] by {}
        if merge_all(init).contains_key(key) {
            let j = choose|j: int|
                0 <= j < init.len() && (#[trigger] init[j]).contains_key(key) && init[j][key]
                    == merge_all(init)[key];
            assert(indexes[j] == init[j]);
        }
        if exists|i: int| 0 <= i < indexes.len() && (#[trigger] indexes[i]).contains_key(key) {
            let i = choose|i: int| 0 <= i < indexes.len() && (#[trigger] indexes[i]).contains_key(key);
            if i < n {
                assert(init[i] == indexes[i]);
            }
        }
        if indexes[n].contains_key(key) && newer(merge_all(init), key, indexes[n][key]) {
            assert(merge_all(indexes)[key] == indexes[n][key]);
        }
        assert forall|i: int|
            0 <= i < indexes.len() && (#[trigger] indexes[i]).contains_key(key) implies indexes[i][key].timestamp
            <= merge_all(indexes)[key].timestamp by {
            if i < n {
                assert(init[i] == indexes[i]);
                assert(init[i].contains_key(key));
            }
        }
    }
}

proof fn lemma_fold_key(
    acc: Map<Seq<u8>, Entry>,
    id: u64,
    pos: int,
    key: Seq<u8>,
    rs: Seq<(u64, Seq<u8>, Seq<u8>)>,
)
    ensures
        fold_records(acc, id, pos, rs).contains_key(key) <==> acc.contains_key(key) || exists|i: int|
            0 <= i < rs.len() && (#[trigger] rs[i]).1 == key,
        forall|i: int|
            0 <= i < rs.len() && (#[trigger] rs[i]).1 == key ==> rs[i].0 <= fold_records(
                acc,
                id,
                pos,
                rs,
            )[key].timestamp,
        acc.contains_key(key) ==> acc[key].timestamp <= fold_records(acc, id, pos, rs)[key].timestamp,
        fold_records(acc, id, pos, rs).contains_key(key) ==> (exists|i: int|
            0 <= i < rs.len() && (#[trigger] rs[i]).1 == key && rs[i].0 == fold_records(
                acc,
                id,
                pos,
                rs,
            )[key].timestamp) || (acc.contains_key(key) && fold_records(acc, id, pos, rs)[key]
            == acc[key]),
    decreases rs.len(),
{
    if rs.len() > 0 {
        let (ts, k, value) = rs[0];
        let e = Entry {
            file_id: id,
            value_pos: (pos + 16 + k.len()) as u64,
            value_size: value.len() as usize,
            timestamp: ts,
        };
        let acc1 = lww_update(acc, k, e);
        let next = pos + record_bytes(ts, k, value).len();
        let rest = rs.drop_first();
        let res = fold_records(acc, id, pos, rs);
        assert(res == fold_records(acc1, id, next, rest));
        lemma_fold_key(acc1, id, next, key, rest);
        assert forall|i: int| 0 <= i < rest.len() implies #[trigger] rest[i] == rs[i + 1] by {}
        if exists|i: int| 0 <= i < rs.len() && (#[trigger] rs[i]).1 == key {
            let i = choose|i: int| 0 <= i < rs.len() && (#[trigger] rs[i]).1 == key;
            if i > 0 {
                assert(rest[i - 1].1 == key);
            } else {
                assert(acc1.contains_key(key));
            }
        }
        if acc1.contains_key(key) && !acc.contains_key(key) {
            assert(rs[0].1 == key);
        }
        if exists|i: int| 0 <= i < rest.len() && (#[trigger] rest[i]).1 == key {
            let i = choose|i: int| 0 <= i < rest.len() && (#[trigger] rest[i]).1 == key;
            assert(rs[i + 1].1 == key);
        }
        assert forall|i: int| 0 <= i < rs.len() && (#[trigger] rs[i]).1 == key implies rs[i].0
            <= res[key].timestamp by {
            if i > 0 {
                assert(rest[i - 1] == rs[i]);
            } else {
                assert(acc1.contains_key(key) && acc1[key].timestamp >= ts);
            }
        }
        if res.contains_key(key) {
            if exists|i: int|
                0 <= i < rest.len() && (#[trigger] rest[i]).1 == key && rest[i].0 == res[key].timestamp {
                let i = choose|i: int|
                    0 <= i < rest.len() && (#[trigger] rest[i]).1 == key && rest[i].0
                        == res[key].timestamp;
                assert(rs[i + 1] == rest[i]);
            } else {
                assert(acc1.contains_key(key) && res[key] == acc1[key]);
                if k == key && newer(acc, key, e) {
                    assert(rs[0].1 == key && rs[0].0 == res[key].timestamp);
                }
            }
        }
    }
}

/// Two strictly ascending sequences with the same elements are equal.
proof fn lemma_ascending_unique(a: Seq<u64>, b: Seq<u64>)
    requires
        strictly_ascending(a),
        strictly_ascending(b),
        a.to_set() == b.to_set(),
    ensures
        a == b,
    decreases a.len(),
{
    if a.len() == 0 {
        if b.len() > 0 {
            assert(b.to_set().contains(b[0]));
        }
        assert(b.len() == 0);
    } else {
        assert(b.len() > 0) by {
            assert(a.to_set().contains(a[0]));
        }
        assert(a[0] == b[0]) by {
            assert(a.to_set().contains(a[0]));
            assert(b.to_set().contains(b[0]));
            let i = choose|i: int| 0 <= i < b.len() && b[i] == a[0];
            let j = choose|j: int| 0 <= j < a.len() && a[j] == b[0];
            assert(i == 0 || b[0] < b[i]);
            assert(j == 0 || a[0] < a[j]);
        }
        let a1 = a.drop_first();
        let b1 = b.drop_first();
        assert forall|x: u64| a1.to_set().contains(x) <==> b1.to_set().contains(x) by {
            if a1.contains(x) {
                let i = choose|i: int| 0 <= i < a1.len() && a1[i] == x;
                assert(a[i + 1] == x);
                assert(a.to_set().contains(x));
                let j = choose|j: int| 0 <= j < b.len() && b[j] == x;
                assert(a[0] < a[i + 1]);
                assert(j != 0);
                assert(b1[j - 1] == x);
            }
            if b1.contains(x) {
                let i = choose|i: int| 0 <= i < b1.len() && b1[i] == x;
                assert(b[i + 1] == x);
                assert(b.to_set().contains(x));
                let j = choose|j: int| 0 <= j < a.len() && a[j] == x;
                assert(b[0] < b[i + 1]);
                assert(j != 0);
                assert(a1[j - 1] == x);
            }
        }
        assert(a1.to_set() =~= b1.to_set());
        lemma_ascending_unique(a1, b1);
        assert(a =~= b) by {
            assert forall|i: int| 0 <= i < a.len() implies a[i] == b[i] by {
                if i > 0 {
                    assert(a[i] == a1[i - 1]);
                    assert(b[i] == b1[i - 1]);
                }
            }
        }
    }
}

proof fn lemma_same_listing_same_ids(names1: Seq<Seq<u8>>, names2: Seq<Seq<u8>>, kind: SegmentKind)
    requires
        names1.to_set() == names2.to_set(),
    ensures
        named_ids(names1, kind) == named_ids(names2, kind),
{
    assert forall|id: u64| named_ids(names1, kind).contains(id) implies named_ids(names2, kind).contains(id) by {
        let i = choose|i: int| 0 <= i < names1.len() && segment_name(names1[i]) == Some((id, kind));
        assert(names1.to_set().contains(names1[i]));
        let j = choose|j: int| 0 <= j < names2.len() && names2[j] == names1[i];
    }
    assert forall|id: u64| named_ids(names2, kind).contains(id) implies named_ids(names1, kind).contains(id) by {
        let i = choose|i: int| 0 <= i < names2.len() && segment_name(names2[i]) == Some((id, kind));
        assert(names2.to_set().contains(names2[i]));
        let j = choose|j: int| 0 <= j < names1.len() && names1[j] == names2[i];
    }
    assert(named_ids(names1, kind) =~= named_ids(names2, kind));
}

/// Recovery gives one keydir for one directory: two listings of the same file
/// names, in any order, planned and then read with the same bytes for each
/// segment, recover to identical keydirs.
pub proof fn lemma_recovery_idempotent(
    names1: Seq<Seq<u8>>,
    names2: Seq<Seq<u8>>,
    hint_ids1: Seq<u64>,
    data_ids1: Seq<u64>,
    hint_ids2: Seq<u64>,
    data_ids2: Seq<u64>,
    hint_files: Map<u64, Seq<u8>>,
    data_files: Map<u64, Seq<u8>>,
)
    requires
        names1.to_set() == names2.to_set(),
        planned(names1, hint_ids1, data_ids1),
        planned(names2, hint_ids2, data_ids2),
    ensures
        recovered(
            hint_ids1,
            hint_ids1.map_values(|id: u64| hint_files[id]),
            data_ids1,
            data_ids1.map_values(|id: u64| data_files[id]),
        ) == recovered(
            hint_ids2,
            hint_ids2.map_values(|id: u64| hint_files[id]),
            data_ids2,
            data_ids2.map_values(|id: u64| data_files[id]),
        ),
{
    lemma_same_listing_same_ids(names1, names2, SegmentKind::Hint);
    lemma_same_listing_same_ids(names1, names2, SegmentKind::Data);
    lemma_ascending_unique(hint_ids1, hint_ids2);
    lemma_ascending_unique(data_ids1, data_ids2);
}

/// A hint segment is read in place of the data segment with the same id: that
/// id is planned as a hint segment and never as a data segment. When those two
/// files are the whole directory, the keydir is the hint segment's own index,
/// whatever the data segment holds.
pub proof fn lemma_hint_preferred(
    names: Seq<Seq<u8>>,
    hint_ids: Seq<u64>,
    data_ids: Seq<u64>,
    id: u64,
    hint_file: Seq<u8>,
    data_file: Seq<u8>,
)
    requires
        planned(names, hint_ids, data_ids),
        exists|i: int| 0 <= i < names.len() && segment_name(#[trigger] names[i]) == Some((id, SegmentKind::Hint)),
        exists|i: int| 0 <= i < names.len() && segment_name(#[trigger] names[i]) == Some((id, SegmentKind::Data)),
    ensures
        hint_ids.contains(id),
        !data_ids.contains(id),
        names.len() == 2 ==> hint_ids == seq![id] && data_ids.len() == 0 && recovered(
            hint_ids,
            seq![hint_file],
            data_ids,
            Seq::empty(),
        ) == hint_index(id, hint_file),
{
    assert(named_ids(names, SegmentKind::Hint).contains(id));
    assert(hint_ids.to_set().contains(id));
    assert(!data_ids.to_set().contains(id));
    if names.len() == 2 {
        let ih = choose|i: int| 0 <= i < names.len() && segment_name(#[trigger] names[i]) == Some((id, SegmentKind::Hint));
        let id_ = choose|i: int| 0 <= i < names.len() && segment_name(#[trigger] names[i]) == Some((id, SegmentKind::Data));
        assert(ih != id_);
        assert forall|x: u64| hint_ids.to_set().contains(x) <==> x == id by {
            if named_ids(names, SegmentKind::Hint).contains(x) {
                let k = choose|k: int| 0 <= k < names.len() && segment_name(names[k]) == Some((x, SegmentKind::Hint));
                assert(k == ih || k == id_);
            }
        }
        assert forall|x: u64| !data_ids.to_set().contains(x) by {
            if named_ids(names, SegmentKind::Data).contains(x) {
                let k = choose|k: int| 0 <= k < names.len() && segment_name(names[k]) == Some((x, SegmentKind::Data));
                assert(k == ih || k == id_);
            }
        }
        assert(hint_ids.to_set() =~= seq![id].to_set()) by {
            assert(seq![id][0] == id);
            assert(seq![id].contains(id));
        }
        lemma_ascending_unique(hint_ids, seq![id]);
        assert(data_ids.len() == 0) by {
            if data_ids.len() > 0 {
                assert(data_ids.to_set().contains(data_ids[0]));
            }
        }
        let all = hint_indexes(hint_ids, seq![hint_file]) + data_indexes(data_ids, Seq::empty());
        assert(all.drop_last() =~= Seq::<Map<Seq<u8>, Entry>>::empty());
        assert(all.len() == 1);
        assert(all.last() == hint_index(id, hint_file));
        assert(merge_all(all.drop_last()) == Map::<Seq<u8>, Entry>::empty());
        assert(merge_all(all) == lww_merge(Map::empty(), hint_index(id, hint_file)));
        assert(lww_merge(Map::empty(), hint_index(id, hint_file)) =~= hint_index(id, hint_file));
    }
}

proof fn lemma_data_index_ids(id: u64, bytes: Seq<u8>, pos: int, acc: Map<Seq<u8>, Entry>)
    requires
        forall|k: Seq<u8>| #[trigger] acc.contains_key(k) ==> acc[k].file_id == id,
    ensures
        forall|k: Seq<u8>|
            #[trigger] data_index_from(id, bytes, pos, acc).contains_key(k) ==> data_index_from(
                id,
                bytes,
                pos,
                acc,
            )[k].file_id == id,
    decreases bytes.len() - pos,
{
    if pos + 16 <= bytes.len() {
        let key_len = u32_at(bytes, pos + 8) as int;
        let value_len = u32_at(bytes, pos + 12) as int;
        let end = pos + 16 + key_len + value_len;
        if end <= bytes.len() {
            let key = bytes.subrange(pos + 16, pos + 16 + key_len);
            let e = Entry {
                file_id: id,
                value_pos: (pos + 16 + key_len) as u64,
                value_size: value_len as usize,
                timestamp: u64_at(bytes, pos),
            };
            let acc1 = lww_update(acc, key, e);
            assert forall|k: Seq<u8>| #[trigger] acc1.contains_key(k) implies acc1[k].file_id == id by {
                if k != key {
                    assert(acc.contains_key(k));
                }
            }
            lemma_data_index_ids(id, bytes, end, acc1);
            assert(data_index_from(id, bytes, pos, acc) == data_index_from(id, bytes, end, acc1));
        }
    }
}

proof fn lemma_hint_index_ids(id: u64, bytes: Seq<u8>, pos: int, acc: Map<Seq<u8>, Entry>)
    requires
        forall|k: Seq<u8>| #[trigger] acc.contains_key(k) ==> acc[k].file_id == id,
    ensures
        forall|k: Seq<u8>|
            #[trigger] hint_index_from(id, bytes, pos, acc).contains_key(k) ==> hint_index_from(
                id,
                bytes,
                pos,
                acc,
            )[k].file_id == id,
    decreases bytes.len() - pos,
{
    if pos + 24 <= bytes.len() {
        let key_len = u32_at(bytes, pos + 8) as int;
        let end = pos + 24 + key_len;
        if end <= bytes.len() {
            let key = bytes.subrange(pos + 24, end);
            let e = Entry {
                file_id: id,
                value_pos: u64_at(bytes, pos + 16),
                value_size: u32_at(bytes, pos + 12) as usize,
                timestamp: u64_at(bytes, pos),
            };
            let acc1 = acc.insert(key, e);
            assert forall|k: Seq<u8>| #[trigger] acc1.contains_key(k) implies acc1[k].file_id == id by {
                if k != key {
                    assert(acc.contains_key(k));
                }
            }
            lemma_hint_index_ids(id, bytes, end, acc1);
            assert(hint_index_from(id, bytes, pos, acc) == hint_index_from(id, bytes, end, acc1));
        }
    }
}

/// Hint segments win over data segments with the same id, in any directory.
/// The data segment of a hinted id is never read. Every recovered entry that
/// points into that segment is the hint segment's own entry for its key. A
/// hint entry newer than every other segment's entry for its key is the
/// recovered entry.
pub proof fn lemma_hint_preferred_general(
    names: Seq<Seq<u8>>,
    hint_ids: Seq<u64>,
    data_ids: Seq<u64>,
    hint_segments: Seq<Seq<u8>>,
    data_segments: Seq<Seq<u8>>,
    i: int,
    key: Seq<u8>,
)
    requires
        planned(names, hint_ids, data_ids),
        hint_segments.len() == hint_ids.len(),
        data_segments.len() == data_ids.len(),
        0 <= i < hint_ids.len(),
    ensures
        !data_ids.contains(hint_ids[i]),
        ({
            let kd = recovered(hint_ids, hint_segments, data_ids, data_segments);
            let h = hint_index(hint_ids[i], hint_segments[i]);
            &&& kd.contains_key(key) && kd[key].file_id == hint_ids[i] ==> h.contains_key(key)
                && kd[key] == h[key]
            &&& h.contains_key(key) && (forall|j: int|
                0 <= j < hint_ids.len() && j != i && #[trigger] hint_index(
                    hint_ids[j],
                    hint_segments[j],
                ).contains_key(key) ==> hint_index(hint_ids[j], hint_segments[j])[key].timestamp
                    < h[key].timestamp) && (forall|j: int|
                0 <= j < data_ids.len() && #[trigger] data_index(
                    data_ids[j],
                    data_segments[j],
                ).contains_key(key) ==> data_index(data_ids[j], data_segments[j])[key].timestamp
                    < h[key].timestamp) ==> kd.contains_key(key) && kd[key] == h[key]
        }),
{
    let id = hint_ids[i];
    assert(hint_ids.to_set().contains(id));
    assert(!data_ids.to_set().contains(id));
    let hi = hint_indexes(hint_ids, hint_segments);
    let di = data_indexes(data_ids, data_segments);
    let all = hi + di;
    let nh = hint_ids.len() as int;
    let kd = merge_all(all);
    let h = hint_index(id, hint_segments[i]);
    assert(all[i] == h);
    lemma_merge_keeps_newest(all, key);
    if kd.contains_key(key) {
        let j = choose|j: int|
            0 <= j < all.len() && (#[trigger] all[j]).contains_key(key) && all[j][key] == kd[key];
        if j < nh {
            lemma_hint_index_ids(hint_ids[j], hint_segments[j], 0, Map::empty());
            assert(all[j] == hint_index(hint_ids[j], hint_segments[j]));
        } else {
            lemma_data_index_ids(data_ids[j - nh], data_segments[j - nh], 0, Map::empty());
            assert(all[j] == data_index(data_ids[j - nh], data_segments[j - nh]));
        }
        if kd[key].file_id == id {
            if j >= nh {
                assert(data_ids[j - nh] == id);
                assert(data_ids.contains(id));
            } else if j != i {
                assert(hint_ids[j] == id);
                assert(j < i ==> hint_ids[j] < hint_ids[i]);
                assert(j > i ==> hint_ids[i] < hint_ids[j]);
            }
        }
    }
    if h.contains_key(key) && (forall|j: int|
        0 <= j < hint_ids.len() && j != i && #[trigger] hint_index(
            hint_ids[j],
            hint_segments[j],
        ).contains_key(key) ==> hint_index(hint_ids[j], hint_segments[j])[key].timestamp
            < h[key].timestamp) && (forall|j: int|
        0 <= j < data_ids.len() && #[trigger] data_index(
            data_ids[j],
            data_segments[j],
        ).contains_key(key) ==> data_index(data_ids[j], data_segments[j])[key].timestamp
            < h[key].timestamp) {
        assert(all[i].contains_key(key));
        assert(kd.contains_key(key));
        let j = choose|j: int|
            0 <= j < all.len() && (#[trigger] all[j]).contains_key(key) && all[j][key] == kd[key];
        assert(h[key].timestamp <= kd[key].timestamp);
        if j != i {
            if j < nh {
                assert(all[j] == hint_index(hint_ids[j], hint_segments[j]));
            } else {
                assert(all[j] == data_index(data_ids[j - nh], data_segments[j - nh]));
            }
        }
    }
}

} // verus!
