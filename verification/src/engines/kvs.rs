//! The log-structured store.

use crate::command::{
    decode_at, decode_command, encode, encode_command, lemma_decode_bounds, lemma_decode_encoded,
    lemma_decode_local, Command, CommandView,
};
use crate::engines::journal::{
    appended, apply_ops, compacted, compaction_ops, image, lemma_append_carries,
    lemma_apply_ops_concat, lemma_apply_ops_push, lemma_compaction_carries, lemma_create_carries,
    removals,
};
use crate::engines::segment::{views, FileOp, FileOpView, MyWriter, Segment};
use crate::error::{KvsError, Result};
use crate::json::same_window;
use crate::log::{
    all_complete, complete, entry_ok, entry_value, has_gen, lemma_locate, lemma_replay_append,
    lemma_replay_empty_segment, lemma_replay_push, lemma_scan_extend, lemma_scan_records,
    lemma_scan_unfold, locate,
    ordered, prior_len, record_at, replay, replay_record, replay_records, scan, scan_stop,
    value_in, CommandOffset, Record, Replayed, SegmentView,
};
use vstd::hash_map::*;
use vstd::prelude::*;
use vstd::slice::*;
use vstd::string::*;

verus! {

/// The number of stale bytes above which a `set` compacts the log.
pub const COMPACTION_THRESHOLD: usize = 1024 * 1024;

/// A count of bytes as the store keeps it: exact up to `usize::MAX`, and
/// `usize::MAX` beyond.
pub open spec fn clamp(n: nat) -> usize {
    if n > usize::MAX {
        usize::MAX
    } else {
        n as usize
    }
}

/// What a log holds: the keys of its replayed index, each with the value
/// of the record that its entry points at.
pub open spec fn view_of(segments: Seq<SegmentView>) -> Map<Seq<char>, Seq<char>> {
    Map::new(
        |k: Seq<char>| replay(segments).index.contains_key(k),
        |k: Seq<char>| entry_value(segments, replay(segments).index[k]),
    )
}

/// A `set` that leaves `stale` stale bytes in a log whose active segment
/// has the generation `gen` compacts the log: the count exceeds the
/// threshold, and two more generations can be numbered.
pub open spec fn compaction_due(stale: usize, gen: u64) -> bool {
    stale > COMPACTION_THRESHOLD && gen <= u64::MAX - 2
}

/// No segment is longer than a `usize` can say.
pub open spec fn bounded(segments: Seq<SegmentView>) -> bool {
    forall|i: int| 0 <= i < segments.len() ==> (#[trigger] segments[i]).data.len() <= usize::MAX
}

/// Every key of `index` stands in `keys`.
pub open spec fn keys_cover(keys: Seq<String>, index: Map<Seq<char>, CommandOffset>) -> bool {
    forall|k: Seq<char>|
        index.contains_key(k) ==> exists|i: int| 0 <= i < keys.len() && (#[trigger] keys[i])@ == k
}

/// The generation of the segment that `open` adds to a log.
pub open spec fn next_gen(segments: Seq<SegmentView>) -> int {
    if segments.len() == 0 {
        1
    } else {
        segments.last().gen + 1
    }
}

/// The records are records of `data`.
spec fn records_of(data: Seq<u8>, records: Seq<Record>) -> bool {
    forall|j: int|
        0 <= j < records.len() ==> {
            &&& decode_at(data, (#[trigger] records[j]).start) == Some(
                (records[j].cmd, records[j].end),
            )
            &&& 0 <= records[j].start < records[j].end <= data.len()
        }
}

/// Replaying records of a segment leaves every entry of the index
/// pointing at a `Set` record for its key.
proof fn lemma_replay_records_ok(
    st: Replayed,
    segments: Seq<SegmentView>,
    i: int,
    records: Seq<Record>,
)
    requires
        ordered(segments),
        bounded(segments),
        0 <= i < segments.len(),
        records_of(segments[i].data, records),
        forall|k: Seq<char>| st.index.contains_key(k) ==> entry_ok(segments, k, #[trigger] st.index[k]),
    ensures
        forall|k: Seq<char>|
            replay_records(st, segments[i].gen, records).index.contains_key(k) ==> entry_ok(
                segments,
                k,
                #[trigger] replay_records(st, segments[i].gen, records).index[k],
            ),
    decreases records.len(),
{
    if records.len() > 0 {
        let before = replay_records(st, segments[i].gen, records.drop_last());
        let r = records.last();
        assert(records_of(segments[i].data, records.drop_last())) by {
            assert forall|j: int| 0 <= j < records.drop_last().len() implies {
                &&& decode_at(segments[i].data, (#[trigger] records.drop_last()[j]).start) == Some(
                    (records.drop_last()[j].cmd, records.drop_last()[j].end),
                )
                &&& 0 <= records.drop_last()[j].start < records.drop_last()[j].end
                    <= segments[i].data.len()
            } by {
                assert(records.drop_last()[j] == records[j]);
            }
        }
        lemma_replay_records_ok(st, segments, i, records.drop_last());
        lemma_locate(segments, i);
        let after = replay_record(before, segments[i].gen, r);
        assert forall|k: Seq<char>| after.index.contains_key(k) implies entry_ok(
            segments,
            k,
            #[trigger] after.index[k],
        ) by {
            if k == r.cmd.key() && r.cmd is SetValue {
            } else {
                assert(before.index.contains_key(k));
                assert(after.index[k] == before.index[k]);
            }
        }
    }
}

/// Every entry of a replayed index points at a `Set` record for its key.
pub proof fn lemma_replay_entries_ok(segments: Seq<SegmentView>)
    requires
        ordered(segments),
        bounded(segments),
    ensures
        forall|k: Seq<char>|
            replay(segments).index.contains_key(k) ==> entry_ok(
                segments,
                k,
                #[trigger] replay(segments).index[k],
            ),
    decreases segments.len(),
{
    if segments.len() > 0 {
        let prev = segments.drop_last();
        let i = segments.len() - 1;
        lemma_replay_entries_ok(prev);
        let st = replay(prev);
        assert forall|k: Seq<char>| st.index.contains_key(k) implies entry_ok(
            segments,
            k,
            #[trigger] st.index[k],
        ) by {
            let e = st.index[k];
            assert(entry_ok(prev, k, e));
            let j = locate(prev, e.gen);
            assert(prev[j] == segments[j]);
            lemma_locate(segments, j);
        }
        let records = scan(segments[i].data, 0);
        assert(records_of(segments[i].data, records)) by {
            assert forall|j: int| 0 <= j < records.len() implies {
                &&& decode_at(segments[i].data, (#[trigger] records[j]).start) == Some(
                    (records[j].cmd, records[j].end),
                )
                &&& 0 <= records[j].start < records[j].end <= segments[i].data.len()
            } by {
                lemma_scan_records(segments[i].data, 0, j);
            }
        }
        lemma_replay_records_ok(st, segments, i, records);
    }
}

/// What replay makes of the index does not depend on the stale bytes
/// counted before, and these are only added to.
pub proof fn lemma_replay_stale_shift(st: Replayed, gen: u64, records: Seq<Record>)
    ensures
        replay_records(st, gen, records).index == replay_records(
            Replayed { index: st.index, stale: 0 },
            gen,
            records,
        ).index,
        replay_records(st, gen, records).stale == st.stale + replay_records(
            Replayed { index: st.index, stale: 0 },
            gen,
            records,
        ).stale,
    decreases records.len(),
{
    if records.len() > 0 {
        lemma_replay_stale_shift(st, gen, records.drop_last());
    }
}

/// Adds two counts of bytes, as the store keeps them.
fn add_stale(a: usize, b: usize) -> (sum: usize)
    ensures
        sum == clamp((a + b) as nat),
{
    a.saturating_add(b)
}

/// Replays the records of one segment into `index`.
///
/// Records are replayed up to the first byte at which no record starts.
/// The result is the count of bytes that became stale on the way, or
/// `SerdeError` where the data does not end with a whole record.
pub fn load(
    gen: u64,
    data: &[u8],
    index: &mut StringHashMap<CommandOffset>,
    keys: &mut Vec<String>,
) -> (r: Result<usize>)
    requires
        keys_cover(old(keys)@, old(index)@),
    ensures
        final(index)@ == replay_records(
            Replayed { index: old(index)@, stale: 0 },
            gen,
            scan(data@, 0),
        ).index,
        keys_cover(final(keys)@, final(index)@),
        match r {
            Ok(stale) => complete(data@) && stale == clamp(
                replay_records(Replayed { index: old(index)@, stale: 0 }, gen, scan(data@, 0)).stale,
            ),
            Err(e) => e is SerdeError && !complete(data@),
        },
{
    let ghost start = Replayed { index: old(index)@, stale: 0 };
    let ghost mut done: Seq<Record> = Seq::empty();
    let mut stale: usize = 0;
    let mut pos: usize = 0;
    assert(done + scan(data@, 0) =~= scan(data@, 0));
    while pos < data.len()
        invariant
            pos <= data.len(),
            start == (Replayed { index: old(index)@, stale: 0 }),
            scan(data@, 0) == done + scan(data@, pos as int),
            scan_stop(data@, 0) == scan_stop(data@, pos as int),
            index@ == replay_records(start, gen, done).index,
            stale == clamp(replay_records(start, gen, done).stale),
            keys_cover(keys@, index@),
        decreases data.len() - pos,
    {
        proof {
            lemma_scan_unfold(data@, pos as int);
        }
        let (cmd, end) = match decode_command(data, pos) {
            Some(found) => found,
            None => {
                assert(done + scan(data@, pos as int) =~= done);
                return Err(KvsError::SerdeError);
            },
        };
        let len: usize = end - pos;
        let ghost record = Record { cmd: cmd@, start: pos as int, end: end as int };
        let ghost before = replay_records(start, gen, done);
        let ghost old_keys = keys@;
        match cmd {
            Command::SetValue { key, value } => {
                match index.get(key.as_str()) {
                    Some(prior) => {
                        stale = add_stale(stale, prior.len);
                    },
                    None => {
                        keys.push(key.clone());
                        assert(keys@[old_keys.len() as int]@ == key@);
                    },
                }
                index.insert(key, CommandOffset { gen, start: pos, len });
            },
            Command::Remove { key } => {
                match index.get(key.as_str()) {
                    Some(prior) => {
                        stale = add_stale(stale, prior.len);
                    },
                    None => {},
                }
                index.remove(key.as_str());
                stale = add_stale(stale, len);
            },
        }
        proof {
            lemma_replay_push(start, gen, done, record);
            assert(done + (seq![record] + scan(data@, end as int)) =~= done.push(record) + scan(
                data@,
                end as int,
            ));
            done = done.push(record);
            assert(index@ =~= replay_records(start, gen, done).index);
            assert forall|k: Seq<char>| index@.contains_key(k) implies exists|i: int|
                0 <= i < keys@.len() && (#[trigger] keys@[i])@ == k by {
                if before.index.contains_key(k) {
                    let i = choose|i: int| 0 <= i < old_keys.len() && (#[trigger] old_keys[i])@ == k;
                    assert(keys@[i] == old_keys[i]);
                } else {
                    assert(keys@[old_keys.len() as int]@ == k);
                }
            }
        }
        pos = end;
    }
    proof {
        lemma_scan_unfold(data@, pos as int);
        lemma_decode_bounds(data@, pos as int);
        assert(done + scan(data@, pos as int) =~= done);
    }
    Ok(stale)
}

/// The second log holds every segment of the first, each with at least
/// the bytes that it had.
pub open spec fn extends(before: Seq<SegmentView>, after: Seq<SegmentView>) -> bool {
    &&& before.len() <= after.len()
    &&& forall|i: int|
        0 <= i < before.len() ==> {
            &&& (#[trigger] after[i]).gen == before[i].gen
            &&& before[i].data.len() <= after[i].data.len()
            &&& after[i].data.subrange(0, before[i].data.len() as int) == before[i].data
        }
}

/// An entry of a log points at the same record in every log that extends it.
pub proof fn lemma_entry_stable(
    before: Seq<SegmentView>,
    after: Seq<SegmentView>,
    key: Seq<char>,
    entry: CommandOffset,
)
    requires
        ordered(before),
        ordered(after),
        extends(before, after),
        entry_ok(before, key, entry),
    ensures
        entry_ok(after, key, entry),
        entry_value(after, entry) == entry_value(before, entry),
{
    let i = locate(before, entry.gen);
    assert(after[i].gen == entry.gen);
    lemma_locate(after, i);
    let old_data = before[i].data;
    let new_data = after[i].data;
    assert(same_window(old_data, entry.start as int, new_data, entry.start as int, entry.len as int))
        by {
        assert forall|k: int| 0 <= k < entry.len implies #[trigger] old_data[entry.start + k]
            == new_data[entry.start + k] by {
            assert(new_data.subrange(0, old_data.len() as int)[entry.start + k] == old_data[entry.start
                + k]);
        }
    }
    lemma_decode_local(old_data, entry.start as int, new_data, entry.start as int, entry.len as int);
}

/// A log with bytes added to its last segment extends the log.
pub proof fn lemma_appended_extends(segments: Seq<SegmentView>, bytes: Seq<u8>)
    requires
        segments.len() > 0,
        ordered(segments),
    ensures
        extends(segments, appended(segments, bytes)),
        ordered(appended(segments, bytes)),
{
    let after = appended(segments, bytes);
    assert forall|i: int| 0 <= i < segments.len() implies {
        &&& (#[trigger] after[i]).gen == segments[i].gen
        &&& segments[i].data.len() <= after[i].data.len()
        &&& after[i].data.subrange(0, segments[i].data.len() as int) == segments[i].data
    } by {
        assert(after[i].data.subrange(0, segments[i].data.len() as int) =~= segments[i].data);
    }
    assert forall|a: int, b: int| 0 <= a < b < after.len() implies (#[trigger] after[a]).gen < (
    #[trigger] after[b]).gen by {
        assert(segments[a].gen < segments[b].gen);
    }
}

/// A list that covers an index covers it still when a key is put into
/// the index, if the key was in the index or has been added to the list.
proof fn lemma_keys_cover_insert(
    old_keys: Seq<String>,
    keys: Seq<String>,
    index: Map<Seq<char>, CommandOffset>,
    key: Seq<char>,
    entry: CommandOffset,
)
    requires
        keys_cover(old_keys, index),
        index.contains_key(key) ==> keys == old_keys,
        !index.contains_key(key) ==> keys.len() == old_keys.len() + 1 && keys.subrange(
            0,
            old_keys.len() as int,
        ) == old_keys && keys.last()@ == key,
    ensures
        keys_cover(keys, index.insert(key, entry)),
{
    assert forall|k: Seq<char>| index.insert(key, entry).contains_key(k) implies exists|i: int|
        0 <= i < keys.len() && (#[trigger] keys[i])@ == k by {
        if index.contains_key(k) {
            let i = choose|i: int| 0 <= i < old_keys.len() && (#[trigger] old_keys[i])@ == k;
            if !index.contains_key(key) {
                assert(keys.subrange(0, old_keys.len() as int)[i] == keys[i]);
            }
            assert(keys[i]@ == k);
        } else {
            assert(keys[keys.len() - 1]@ == k);
        }
    }
}

/// The bytes that `entry` covers in its segment.
pub open spec fn entry_bytes(segments: Seq<SegmentView>, entry: CommandOffset) -> Seq<u8> {
    segments[locate(segments, entry.gen)].data.subrange(
        entry.start as int,
        entry.start + entry.len,
    )
}

/// The bytes of the live record of each key of `index`.
pub open spec fn live_records(
    segments: Seq<SegmentView>,
    index: Map<Seq<char>, CommandOffset>,
) -> Map<Seq<char>, Seq<u8>> {
    Map::new(|k: Seq<char>| index.contains_key(k), |k: Seq<char>| entry_bytes(segments, index[k]))
}

/// An entry of a log covers the same bytes in every log that extends it.
pub proof fn lemma_entry_bytes_stable(
    before: Seq<SegmentView>,
    after: Seq<SegmentView>,
    key: Seq<char>,
    entry: CommandOffset,
)
    requires
        ordered(before),
        ordered(after),
        extends(before, after),
        entry_ok(before, key, entry),
    ensures
        entry_bytes(after, entry) == entry_bytes(before, entry),
{
    let i = locate(before, entry.gen);
    assert(after[i].gen == entry.gen);
    lemma_locate(after, i);
    let old_data = before[i].data;
    let new_data = after[i].data;
    let old_bytes = entry_bytes(before, entry);
    let new_bytes = entry_bytes(after, entry);
    assert(new_bytes =~= old_bytes) by {
        assert forall|k: int| 0 <= k < old_bytes.len() implies new_bytes[k] == old_bytes[k] by {
            assert(new_data.subrange(0, old_data.len() as int)[entry.start + k] == old_data[entry.start
                + k]);
        }
    }
}

/// The number of bytes of a log.
pub open spec fn log_size(segments: Seq<SegmentView>) -> nat
    decreases segments.len(),
{
    if segments.len() == 0 {
        0
    } else {
        log_size(segments.drop_last()) + segments.last().data.len()
    }
}

/// The keys of a list of strings.
pub open spec fn key_views(keys: Seq<String>) -> Seq<Seq<char>> {
    Seq::new(keys.len(), |i: int| keys[i]@)
}

/// The sum of the lengths of the entries that `index` holds for `keys`.
pub open spec fn total_len(keys: Seq<Seq<char>>, index: Map<Seq<char>, CommandOffset>) -> nat
    decreases keys.len(),
{
    if keys.len() == 0 {
        0
    } else {
        total_len(keys.drop_last(), index) + index[keys.last()].len as nat
    }
}

/// The sum does not depend on entries of other keys.
proof fn lemma_total_len_insert(
    keys: Seq<Seq<char>>,
    index: Map<Seq<char>, CommandOffset>,
    key: Seq<char>,
    entry: CommandOffset,
)
    requires
        !keys.contains(key),
    ensures
        total_len(keys, index.insert(key, entry)) == total_len(keys, index),
    decreases keys.len(),
{
    if keys.len() > 0 {
        assert forall|j: int| 0 <= j < keys.drop_last().len() implies keys.drop_last()[j] != key by {
            assert(keys.drop_last()[j] == keys[j]);
            assert(keys.contains(keys[j]));
        }
        lemma_total_len_insert(keys.drop_last(), index, key, entry);
        assert(keys.contains(keys.last()));
    }
}

/// The state of a compaction: the index as far as it has been turned
/// to the compaction segment, what that segment holds, and the keys whose
/// records were moved.
struct Compaction {
    pub index: Map<Seq<char>, CommandOffset>,
    pub image: Seq<u8>,
    pub records: Seq<Record>,
    pub moved: Map<Seq<char>, CommandOffset>,
    pub live: Seq<Seq<char>>,
}

/// The log of no segments replayed.
spec fn nothing_replayed() -> Replayed {
    Replayed { index: Map::empty(), stale: 0 }
}

/// What holds while the log with the index `old_index` and the view
/// `old_view` is compacted into the segment `gen`.
spec fn compacting(
    old_index: Map<Seq<char>, CommandOffset>,
    old_view: Map<Seq<char>, Seq<char>>,
    old_records: Map<Seq<char>, Seq<u8>>,
    gen: u64,
    c: Compaction,
) -> bool {
    &&& c.index.dom() == old_index.dom()
    &&& forall|k: Seq<char>| #[trigger]
        c.moved.contains_key(k) <==> c.index.contains_key(k) && c.index[k].gen == gen
    &&& forall|k: Seq<char>| #[trigger]
        c.moved.contains_key(k) ==> {
            &&& c.moved[k] == c.index[k]
            &&& record_at(c.image, c.index[k], k)
            &&& value_in(c.image, c.index[k]) == old_view[k]
            &&& c.index[k].len == old_index[k].len
            &&& c.image.subrange(c.index[k].start as int, c.index[k].start + c.index[k].len)
                == old_records[k]
        }
    &&& forall|k: Seq<char>|
        c.index.contains_key(k) && !c.moved.contains_key(k) ==> #[trigger] c.index[k]
            == old_index[k]
    &&& scan(c.image, 0) == c.records
    &&& scan_stop(c.image, 0) == c.image.len()
    &&& replay_records(nothing_replayed(), gen, c.records) == Replayed { index: c.moved, stale: 0 }
    &&& c.live.no_duplicates()
    &&& forall|j: int| 0 <= j < c.live.len() ==> c.moved.contains_key(#[trigger] c.live[j])
    &&& forall|k: Seq<char>| #[trigger] c.moved.contains_key(k) ==> c.live.contains(k)
    &&& c.image.len() == total_len(c.live, c.index)
}

/// The compaction after the record of `key`, which lies at `entry` in
/// `source`, was moved.
spec fn moved_one(
    c: Compaction,
    gen: u64,
    key: Seq<char>,
    source: Seq<u8>,
    entry: CommandOffset,
) -> Compaction {
    let bytes = source.subrange(entry.start as int, entry.start + entry.len);
    let target = CommandOffset { gen, start: c.image.len() as usize, len: entry.len };
    Compaction {
        index: c.index.insert(key, target),
        image: c.image + bytes,
        records: c.records.push(
            Record {
                cmd: decode_at(source, entry.start as int).unwrap().0,
                start: c.image.len() as int,
                end: c.image.len() + entry.len,
            },
        ),
        moved: c.moved.insert(key, target),
        live: c.live.push(key),
    }
}

/// Moving the record of a key that was not moved yet keeps the compaction
/// in order.
proof fn lemma_compaction_step(
    old_index: Map<Seq<char>, CommandOffset>,
    old_view: Map<Seq<char>, Seq<char>>,
    old_records: Map<Seq<char>, Seq<u8>>,
    gen: u64,
    c: Compaction,
    key: Seq<char>,
    source: Seq<u8>,
    entry: CommandOffset,
)
    requires
        compacting(old_index, old_view, old_records, gen, c),
        c.index.contains_key(key),
        c.index[key] == entry,
        entry.gen != gen,
        record_at(source, entry, key),
        value_in(source, entry) == old_view[key],
        source.subrange(entry.start as int, entry.start + entry.len) == old_records[key],
        c.image.len() + entry.len <= usize::MAX,
    ensures
        compacting(old_index, old_view, old_records, gen, moved_one(c, gen, key, source, entry)),
{
    let next = moved_one(c, gen, key, source, entry);
    let bytes = source.subrange(entry.start as int, entry.start + entry.len);
    let at = c.image.len() as int;
    let n = entry.len as int;
    let target = CommandOffset { gen, start: at as usize, len: entry.len };
    let cmd = decode_at(source, entry.start as int).unwrap().0;
    let record = Record { cmd, start: at, end: at + n };
    assert(!c.moved.contains_key(key));
    assert(!c.live.contains(key)) by {
        if c.live.contains(key) {
            let j = choose|j: int| 0 <= j < c.live.len() && c.live[j] == key;
            assert(c.moved.contains_key(c.live[j]));
        }
    }
    assert(same_window(source, entry.start as int, next.image, at, n)) by {
        assert forall|k: int| 0 <= k < n implies #[trigger] source[entry.start + k] == next.image[at
            + k] by {
            assert(bytes[k] == source[entry.start + k]);
        }
    }
    lemma_decode_local(source, entry.start as int, next.image, at, n);
    lemma_scan_extend(c.image, 0, bytes, cmd);
    lemma_replay_push(nothing_replayed(), gen, c.records, record);
    assert(next.index.dom() =~= old_index.dom());
    assert(replay_records(nothing_replayed(), gen, next.records) == Replayed {
        index: next.moved,
        stale: 0,
    });
    assert forall|k: Seq<char>| #[trigger] next.moved.contains_key(k) implies {
        &&& next.moved[k] == next.index[k]
        &&& record_at(next.image, next.index[k], k)
        &&& value_in(next.image, next.index[k]) == old_view[k]
        &&& next.index[k].len == old_index[k].len
        &&& next.image.subrange(next.index[k].start as int, next.index[k].start + next.index[k].len)
            == old_records[k]
    } by {
        let e = next.index[k];
        let covered = next.image.subrange(e.start as int, e.start + e.len);
        if k != key {
            assert(c.moved.contains_key(k));
            assert(same_window(c.image, e.start as int, next.image, e.start as int, e.len as int));
            lemma_decode_local(c.image, e.start as int, next.image, e.start as int, e.len as int);
            assert(covered =~= c.image.subrange(e.start as int, e.start + e.len));
        } else {
            assert(covered =~= bytes);
        }
    }
    assert(next.live.no_duplicates()) by {
        assert forall|a: int, b: int| 0 <= a < next.live.len() && 0 <= b < next.live.len() && a
            != b implies next.live[a] != next.live[b] by {
            if a < c.live.len() && b < c.live.len() {
            } else if a < c.live.len() {
                assert(c.live.contains(c.live[a]));
            } else {
                assert(c.live.contains(c.live[b]));
            }
        }
    }
    assert forall|k: Seq<char>| #[trigger] next.moved.contains_key(k) implies next.live.contains(
        k,
    ) by {
        if k != key {
            assert(c.moved.contains_key(k));
            let j = choose|j: int| 0 <= j < c.live.len() && c.live[j] == k;
            assert(next.live[j] == k);
        } else {
            assert(next.live[c.live.len() as int] == key);
        }
    }
    assert(next.image.len() == total_len(next.live, next.index)) by {
        assert(next.live.drop_last() =~= c.live);
        lemma_total_len_insert(c.live, c.index, key, target);
    }
}

/// A new, empty segment of a later generation changes nothing in what a
/// log holds.
pub proof fn lemma_view_of_new_segment(segments: Seq<SegmentView>, gen: u64)
    requires
        ordered(segments.push(SegmentView { gen, data: Seq::empty() })),
        bounded(segments),
    ensures
        view_of(segments.push(SegmentView { gen, data: Seq::empty() })) == view_of(segments),
{
    let longer = segments.push(SegmentView { gen, data: Seq::empty() });
    lemma_replay_empty_segment(segments, gen);
    assert(ordered(segments)) by {
        assert forall|a: int, b: int| 0 <= a < b < segments.len() implies (#[trigger] segments[a]).gen
            < (#[trigger] segments[b]).gen by {
            assert(longer[a].gen < longer[b].gen);
        }
    }
    assert(extends(segments, longer)) by {
        assert forall|i: int| 0 <= i < segments.len() implies {
            &&& (#[trigger] longer[i]).gen == segments[i].gen
            &&& segments[i].data.len() <= longer[i].data.len()
            &&& longer[i].data.subrange(0, segments[i].data.len() as int) == segments[i].data
        } by {
            assert(longer[i].data.subrange(0, segments[i].data.len() as int) =~= segments[i].data);
        }
    }
    lemma_replay_entries_ok(segments);
    assert forall|k: Seq<char>| view_of(segments).contains_key(k) implies #[trigger] view_of(
        longer,
    )[k] == view_of(segments)[k] by {
        lemma_entry_stable(segments, longer, k, replay(segments).index[k]);
    }
    assert(view_of(longer) =~= view_of(segments));
}

/// The store: the log's segments, the index into them, and the file
/// operations that are still to be carried out.
pub struct StoreWriter {
    index: StringHashMap<CommandOffset>,
    keys: Vec<String>,
    writer: MyWriter,
    uncompacted: usize,
    current_gen: u64,
    readers: Vec<Segment>,
    journal: Vec<FileOp>,
    mirrored: Ghost<Map<u64, Seq<u8>>>,
}

impl View for StoreWriter {
    type V = Map<Seq<char>, Seq<char>>;

    /// The store as a map from each live key to its value: what its log
    /// holds.
    closed spec fn view(&self) -> Map<Seq<char>, Seq<char>> {
        view_of(self.segments())
    }
}

impl StoreWriter {
    /// The segments of the log, oldest first; the last one is the active
    /// segment.
    pub closed spec fn segments(&self) -> Seq<SegmentView> {
        views(self.readers@).push(
            SegmentView { gen: self.current_gen, data: self.writer.data() },
        )
    }

    /// The index: where the live record of each key lies.
    pub closed spec fn index(&self) -> Map<Seq<char>, CommandOffset> {
        self.index@
    }

    /// The count of stale bytes.
    pub closed spec fn uncompacted(&self) -> usize {
        self.uncompacted
    }

    /// The generation of the active segment.
    pub closed spec fn current_gen(&self) -> u64 {
        self.current_gen
    }

    /// The store's invariant: the segments are in rising order and hold
    /// whole records; the index and the count of stale bytes are what
    /// replaying the segments gives; nothing written waits to be flushed;
    /// the journal brings the directory in line with the segments.
    pub closed spec fn wf(&self) -> bool {
        &&& self.writer.wf()
        &&& self.writer.flushed() == self.writer.data().len()
        &&& ordered(self.segments())
        &&& all_complete(self.segments())
        &&& self.index@ == replay(self.segments()).index
        &&& self.uncompacted == clamp(replay(self.segments()).stale)
        &&& keys_cover(self.keys@, self.index@)
        &&& self.carries()
    }

    /// The directory that mirrored the log when the journal was last
    /// taken: the directory that the journal is to be carried out on.
    pub closed spec fn mirrored(&self) -> Map<u64, Seq<u8>> {
        self.mirrored@
    }

    /// Carrying out the journal brings the directory in line with the log.
    pub closed spec fn carries(&self) -> bool {
        apply_ops(self.mirrored@, self.journal()) == image(self.segments())
    }

    /// No segment of a store is longer than a `usize` can say.
    proof fn lemma_bounded(&self)
        ensures
            bounded(self.segments()),
    {
        let segments = self.segments();
        assert forall|i: int| 0 <= i < segments.len() implies (#[trigger] segments[i]).data.len()
            <= usize::MAX by {
            if i < self.readers@.len() {
                let data = self.readers@[i].data;
                assert(data.len() == data@.len());
            } else {
                self.writer.lemma_data_bounded();
            }
        }
    }

    /// The bytes of the live record of each key.
    pub open spec fn records(&self) -> Map<Seq<char>, Seq<u8>> {
        live_records(self.segments(), self.index())
    }

    /// The length of the active segment.
    pub open spec fn active_len(&self) -> nat {
        self.segments().last().data.len()
    }

    /// The file operations that were decided and not yet taken.
    pub closed spec fn journal(&self) -> Seq<FileOpView> {
        Seq::new(self.journal@.len(), |i: int| self.journal@[i]@)
    }

    /// Builds the store of a log.
    ///
    /// `segments` are the log's segments, oldest first. They are replayed
    /// in that order; then a new, empty segment of the next generation is
    /// made the active one. Fails with `SerdeError` where a segment does
    /// not consist of whole records.
    pub fn open(segments: Vec<Segment>) -> (r: Result<StoreWriter>)
        requires
            ordered(views(segments@)),
            next_gen(views(segments@)) <= u64::MAX,
        ensures
            match r {
                Ok(store) => {
                    &&& all_complete(views(segments@))
                    &&& store.wf()
                    &&& store.segments() == views(segments@).push(
                        SegmentView {
                            gen: next_gen(views(segments@)) as u64,
                            data: Seq::empty(),
                        },
                    )
                    &&& store.journal() == seq![
                        FileOpView::Create { gen: next_gen(views(segments@)) as u64 },
                    ]
                    &&& store@ == view_of(views(segments@))
                    &&& store.mirrored() == image(views(segments@))
                },
                Err(e) => e is SerdeError && !all_complete(views(segments@)),
            },
    {
        let ghost all = views(segments@);
        let mut index: StringHashMap<CommandOffset> = StringHashMap::new();
        let mut keys: Vec<String> = Vec::new();
        let mut uncompacted: usize = 0;
        let mut i: usize = 0;
        while i < segments.len()
            invariant
                i <= segments.len(),
                all == views(segments@),
                index@ == replay(all.take(i as int)).index,
                uncompacted == clamp(replay(all.take(i as int)).stale),
                all_complete(all.take(i as int)),
                keys_cover(keys@, index@),
            decreases segments.len() - i,
        {
            let segment = &segments[i];
            let ghost before = replay(all.take(i as int));
            let ghost upto = all.take(i as int);
            let ghost with = all.take(i + 1);
            proof {
                assert(with.drop_last() =~= upto);
                assert(with.last() == all[i as int]);
                lemma_replay_stale_shift(before, segment.gen, scan(segment.data@, 0));
            }
            match load(segment.gen, segment.data.as_slice(), &mut index, &mut keys) {
                Ok(stale) => {
                    uncompacted = add_stale(uncompacted, stale);
                },
                Err(e) => {
                    assert(!complete(all[i as int].data));
                    return Err(e);
                },
            }
            proof {
                assert forall|j: int| 0 <= j < with.len() implies complete(
                    #[trigger] with[j].data,
                ) by {
                    if j < i {
                        assert(with[j] == upto[j]);
                    }
                }
            }
            i = i + 1;
        }
        proof {
            assert(all.take(i as int) =~= all);
        }
        let gen: u64 = if segments.len() == 0 {
            1
        } else {
            segments[segments.len() - 1].gen + 1
        };
        let mut journal: Vec<FileOp> = Vec::new();
        journal.push(FileOp::Create { gen });
        let store = StoreWriter {
            index,
            keys,
            writer: MyWriter::new(),
            uncompacted,
            current_gen: gen,
            readers: segments,
            journal,
            mirrored: Ghost(image(all)),
        };
        proof {
            let active = SegmentView { gen, data: Seq::empty() };
            assert(store.segments() =~= all.push(active));
            lemma_replay_empty_segment(all, gen);
            assert(store.journal() =~= seq![FileOpView::Create { gen }]);

            assert forall|k: int| 0 <= k < all.len() implies (#[trigger] all[k]).data.len()
                <= usize::MAX by {
                let data = segments@[k].data;
                assert(data.len() == data@.len());
            }
            assert(ordered(store.segments())) by {
                assert forall|a: int, b: int| 0 <= a < b < store.segments().len() implies (
                #[trigger] store.segments()[a]).gen < (#[trigger] store.segments()[b]).gen by {
                    if b < all.len() {
                        assert(all[a].gen < all[b].gen);
                    } else if a < all.len() - 1 {
                        assert(all[a].gen < all[all.len() - 1].gen);
                    }
                }
            }
        }
        proof {
            lemma_view_of_new_segment(views(segments@), gen);
            assert(store.carries()) by {
                let create = FileOpView::Create { gen };
                lemma_create_carries(all, gen);
                lemma_apply_ops_push(image(all), Seq::empty(), create);
                assert(Seq::<FileOpView>::empty().push(create) =~= store.journal());
            }
        }
        Ok(store)
    }

    /// Writes the record of `cmd` at the end of the active segment, and
    /// says where it lies.
    fn append(&mut self, cmd: &Command) -> (r: Result<CommandOffset>)
        requires
            old(self).wf(),
        ensures
            r matches Ok(entry) && {
                &&& entry.gen == old(self).current_gen
                &&& entry.start == old(self).segments().last().data.len()
                &&& entry.len == encode(cmd@).len()
                &&& decode_at(final(self).segments().last().data, entry.start as int) == Some(
                    (cmd@, entry.start + entry.len),
                )
                &&& replay(final(self).segments()) == replay_record(
                    replay(old(self).segments()),
                    entry.gen,
                    Record { cmd: cmd@, start: entry.start as int, end: entry.start + entry.len },
                )
            },
            final(self).segments() == appended(old(self).segments(), encode(cmd@)),
            final(self).journal() == old(self).journal().push(
                FileOpView::Append { gen: old(self).current_gen, data: encode(cmd@) },
            ),
            final(self).index@ == old(self).index@,
            final(self).keys@ == old(self).keys@,
            final(self).uncompacted == old(self).uncompacted,
            final(self).current_gen == old(self).current_gen,
            final(self).mirrored == old(self).mirrored,
            final(self).writer.wf(),
            final(self).writer.flushed() == final(self).writer.data().len(),
            ordered(final(self).segments()),
            all_complete(final(self).segments()),
            final(self).carries(),
    {
        let ghost before = self.segments();
        let ghost old_journal = self.journal();
        let bytes = match encode_command(cmd) {
            Ok(bytes) => bytes,
            Err(e) => { return Err(e); },
        };
        let start = self.writer.offset();
        self.writer.write(bytes.as_slice());
        let pending = self.writer.flush();
        let end = self.writer.offset();
        self.note(FileOp::Append { gen: self.current_gen, data: pending });
        proof {
            let old_data = before.last().data;
            let new_data = old_data + bytes@;
            assert(pending@ =~= bytes@);
            assert(self.segments() =~= appended(before, bytes@));
            assert(self.journal() =~= old_journal.push(
                FileOpView::Append { gen: self.current_gen, data: bytes@ },
            ));
            assert(new_data.subrange(start as int, start + bytes@.len()) =~= bytes@);
            lemma_decode_encoded(new_data, start as int, cmd@);
            lemma_replay_append(before, bytes@, cmd@);
            lemma_appended_extends(before, bytes@);
            assert(self.carries()) by {
                let op = FileOpView::Append { gen: self.current_gen, data: bytes@ };
                lemma_apply_ops_push(self.mirrored@, old_journal, op);
                lemma_append_carries(before, bytes@);
            }
            assert forall|i: int| 0 <= i < self.segments().len() implies complete(
                #[trigger] self.segments()[i].data,
            ) by {
                if i < before.len() - 1 {
                    assert(self.segments()[i] == before[i]);
                }
            }
        }
        Ok(CommandOffset { gen: self.current_gen, start, len: end - start })
    }

    /// The view changes as the index does: a key of the index keeps its
    /// value when the log is extended.
    proof fn lemma_view_stable(&self, before: &StoreWriter, k: Seq<char>)
        requires
            before.wf(),
            ordered(self.segments()),
            extends(before.segments(), self.segments()),
            self.index@ == replay(self.segments()).index,
            before.index@.contains_key(k),
            self.index@.contains_key(k),
            self.index@[k] == before.index@[k],
        ensures
            self@.contains_key(k),
            self@[k] == before@[k],
    {
        before.lemma_bounded();
        lemma_replay_entries_ok(before.segments());
        lemma_entry_stable(before.segments(), self.segments(), k, before.index@[k]);
    }

    /// After a `Set` record was added and the index made to point at it,
    /// the key has the record's value and every other key the value that
    /// it had.
    proof fn lemma_view_after_set(
        &self,
        before: &StoreWriter,
        key: Seq<char>,
        value: Seq<char>,
        entry: CommandOffset,
    )
        requires
            before.wf(),
            ordered(self.segments()),
            extends(before.segments(), self.segments()),
            self.index@ == replay(self.segments()).index,
            self.index@ == before.index@.insert(key, entry),
            entry.gen == self.segments().last().gen,
            decode_at(self.segments().last().data, entry.start as int) == Some(
                (CommandView::SetValue { key, value }, entry.start + entry.len),
            ),
        ensures
            self@ == before@.insert(key, value),
    {
        let target = before@.insert(key, value);
        lemma_locate(self.segments(), self.segments().len() - 1);
        assert(self@[key] == value);
        assert forall|k: Seq<char>| target.contains_key(k) implies #[trigger] self@[k] == target[k] by {
            if k != key {
                self.lemma_view_stable(before, k);
            }
        }
        assert(self@ =~= target);
    }

    /// Makes the index point at `entry` for `key`, and counts the entry
    /// that it replaces as stale.
    fn point_at(&mut self, key: String, entry: CommandOffset)
        requires
            keys_cover(old(self).keys@, old(self).index@),
        ensures
            final(self).index@ == old(self).index@.insert(key@, entry),
            final(self).uncompacted == clamp(
                (old(self).uncompacted + prior_len(old(self).index@, key@)) as nat,
            ),
            keys_cover(final(self).keys@, final(self).index@),
            final(self).readers == old(self).readers,
            final(self).writer == old(self).writer,
            final(self).current_gen == old(self).current_gen,
            final(self).journal == old(self).journal,
            final(self).mirrored == old(self).mirrored,
    {
        let ghost old_keys = self.keys@;
        let ghost old_index = self.index@;
        match self.index.get(key.as_str()) {
            Some(prior) => {
                self.uncompacted = add_stale(self.uncompacted, prior.len);
            },
            None => {
                self.keys.push(key.clone());
                assert(self.keys@.subrange(0, old_keys.len() as int) =~= old_keys);
            },
        }
        self.index.insert(key, entry);
        proof {
            lemma_keys_cover_insert(old_keys, self.keys@, old_index, key@, entry);
        }
    }

    /// Gives `key` the value `value`.
    ///
    /// The `Set` record is written at the end of the active segment and
    /// the index made to point at it; the entry that it replaces, if any,
    /// is counted as stale. Where the count of stale bytes then exceeds
    /// `COMPACTION_THRESHOLD`, the log is compacted.
    pub fn set(&mut self, key: String, value: String) -> (r: Result<()>)
        requires
            old(self).wf(),
        ensures
            final(self).wf(),
            r is Ok,
            final(self)@ == old(self)@.insert(key@, value@),
            final(self).mirrored() == old(self).mirrored(),
            ({
                let record = encode(CommandView::SetValue { key: key@, value: value@ });
                let entry = CommandOffset {
                    gen: old(self).current_gen(),
                    start: old(self).active_len() as usize,
                    len: record.len() as usize,
                };
                let stale = clamp((old(self).uncompacted() + prior_len(old(self).index(), key@)) as nat);
                let written = old(self).journal().push(
                    FileOpView::Append { gen: old(self).current_gen(), data: record },
                );
                &&& final(self).records() == old(self).records().insert(key@, record)
                &&& final(self).index().dom() == old(self).index().dom().insert(key@)
                &&& forall|k: Seq<char>|
                    final(self).index().contains_key(k) ==> (#[trigger] final(self).index()[k]).len
                        == if k == key@ {
                        record.len() as usize
                    } else {
                        old(self).index()[k].len
                    }
                &&& if compaction_due(stale, old(self).current_gen()) {
                    &&& final(self).is_compact()
                    &&& final(self).current_gen() == old(self).current_gen() + 2
                    &&& final(self).segments()[0].gen == old(self).current_gen() + 1
                    &&& final(self).segments()[1].gen == old(self).current_gen() + 2
                    &&& final(self).journal() == written + compaction_ops(
                        appended(old(self).segments(), record),
                        (old(self).current_gen() + 1) as u64,
                        final(self).segments()[0].data,
                    )
                } else {
                    &&& final(self).segments() == appended(old(self).segments(), record)
                    &&& final(self).index() == old(self).index().insert(key@, entry)
                    &&& final(self).uncompacted() == stale
                    &&& final(self).current_gen() == old(self).current_gen()
                    &&& final(self).journal() == written
                }
            }),
    {
        let ghost before = *self;
        let cmd = Command::SetValue { key: key.clone(), value };
        let entry = match self.append(&cmd) {
            Ok(entry) => entry,
            Err(e) => { return Err(e); },
        };
        let ghost record = Record {
            cmd: cmd@,
            start: entry.start as int,
            end: entry.start + entry.len,
        };
        let ghost appended = *self;
        self.point_at(key, entry);
        proof {
            assert(self.segments() == appended.segments());
            assert(self.journal() == appended.journal());
            assert(self.carries());
            self.lemma_after_set(&before, record, entry);
            self.lemma_records_after_append(&before, encode(cmd@), entry);
            assert(self.records() =~= before.records().insert(key@, encode(cmd@)));
            assert(self.index().dom() =~= before.index().dom().insert(key@));
        }
        if self.uncompacted > COMPACTION_THRESHOLD && self.current_gen <= u64::MAX - 2 {
            self.compact();
        }
        Ok(())
    }

    /// The store is in order after a `Set` record was added to the active
    /// segment and the index made to point at it, and the key has the
    /// record's value.
    proof fn lemma_after_set(&self, before: &StoreWriter, record: Record, entry: CommandOffset)
        requires
            before.wf(),
            record.cmd is SetValue,
            entry.gen == before.current_gen,
            record.start == entry.start,
            record.end == entry.start + entry.len,
            self.segments() == appended(before.segments(), encode(record.cmd)),
            decode_at(self.segments().last().data, entry.start as int) == Some(
                (record.cmd, entry.start + entry.len),
            ),
            replay(self.segments()) == replay_record(
                replay(before.segments()),
                entry.gen,
                record,
            ),
            ordered(self.segments()),
            all_complete(self.segments()),
            self.writer.wf(),
            self.writer.flushed() == self.writer.data().len(),
            self.index@ == before.index@.insert(record.cmd.key(), entry),
            self.uncompacted == clamp(
                (before.uncompacted + prior_len(before.index@, record.cmd.key())) as nat,
            ),
            keys_cover(self.keys@, self.index@),
            self.carries(),
        ensures
            self.wf(),
            self@ == before@.insert(record.cmd.key(), record.cmd->value),
    {
        let key = record.cmd.key();
        let replayed = replay(self.segments());
        assert(replayed.index == self.index@ && self.uncompacted == clamp(replayed.stale)) by {
            let was = replay(before.segments());
            assert(was.index == before.index@);
            assert(replayed == replay_record(was, entry.gen, record));
            assert(record.start as usize == entry.start);
            assert(record.len() as usize == entry.len);
            assert(replayed.index =~= self.index@);
        }
        assert(self.wf());
        assert(self@ == before@.insert(key, record.cmd->value)) by {
            lemma_appended_extends(before.segments(), encode(record.cmd));
            self.lemma_view_after_set(before, key, record.cmd->value, entry);
        }
    }

    /// After a record was added to the active segment, every entry that
    /// the index kept covers the bytes that it covered; an entry for the
    /// record covers the record's bytes.
    proof fn lemma_records_after_append(
        &self,
        before: &StoreWriter,
        bytes: Seq<u8>,
        entry: CommandOffset,
    )
        requires
            before.wf(),
            self.segments() == appended(before.segments(), bytes),
            entry.gen == before.current_gen,
            entry.start == before.active_len(),
            entry.len == bytes.len(),
        ensures
            entry_bytes(self.segments(), entry) == bytes,
            forall|k: Seq<char>|
                before.index@.contains_key(k) ==> entry_bytes(
                    self.segments(),
                    #[trigger] before.index@[k],
                ) == entry_bytes(before.segments(), before.index@[k]),
    {
        let old_segments = before.segments();
        let new_segments = self.segments();
        lemma_appended_extends(old_segments, bytes);
        lemma_locate(new_segments, new_segments.len() - 1);
        assert(entry_bytes(new_segments, entry) =~= bytes);
        before.lemma_bounded();
        lemma_replay_entries_ok(old_segments);
        assert forall|k: Seq<char>| before.index@.contains_key(k) implies entry_bytes(
            new_segments,
            #[trigger] before.index@[k],
        ) == entry_bytes(old_segments, before.index@[k]) by {
            lemma_entry_bytes_stable(old_segments, new_segments, k, before.index@[k]);
        }
    }

    /// Takes the value of `key` away.
    ///
    /// Fails with `KeyNotFoundError`, and changes nothing, where `key` has
    /// no value. Else the `Remove` record is written at the end of the
    /// active segment and the key's entry deleted; the entry and the
    /// record are counted as stale.
    pub fn remove(&mut self, key: String) -> (r: Result<()>)
        requires
            old(self).wf(),
        ensures
            final(self).wf(),
            match r {
                Ok(_) => {
                    let record = encode(CommandView::Remove { key: key@ });
                    &&& old(self)@.contains_key(key@)
                    &&& final(self)@ == old(self)@.remove(key@)
                    &&& final(self).segments() == appended(old(self).segments(), record)
                    &&& final(self).index() == old(self).index().remove(key@)
                    &&& final(self).records() == old(self).records().remove(key@)
                    &&& final(self).uncompacted() == clamp(
                        (old(self).uncompacted() + prior_len(old(self).index(), key@)
                            + record.len()) as nat,
                    )
                    &&& final(self).current_gen() == old(self).current_gen()
                    &&& final(self).journal() == old(self).journal().push(
                        FileOpView::Append { gen: old(self).current_gen(), data: record },
                    )
                    &&& final(self).mirrored() == old(self).mirrored()
                },
                Err(e) => e is KeyNotFoundError && !old(self)@.contains_key(key@) && *final(self)
                    == *old(self),
            },
    {
        let ghost before = *self;
        let prior: CommandOffset = match self.index.get(key.as_str()) {
            Some(prior) => *prior,
            None => { return Err(KvsError::KeyNotFoundError); },
        };
        let cmd = Command::Remove { key: key.clone() };
        let entry = match self.append(&cmd) {
            Ok(entry) => entry,
            Err(e) => {
                return Err(e);
            },
        };
        self.index.remove(key.as_str());
        self.uncompacted = add_stale(add_stale(self.uncompacted, prior.len), entry.len);
        proof {
            assert(self.index@ =~= replay(self.segments()).index);
            lemma_appended_extends(before.segments(), encode(cmd@));
            assert(self@ =~= before@.remove(key@)) by {
                assert forall|k: Seq<char>| before@.remove(key@).contains_key(k) implies #[trigger] self@[k]
                    == before@.remove(key@)[k] by {
                    self.lemma_view_stable(&before, k);
                }
            }
            assert(self.records() =~= before.records().remove(key@)) by {
                self.lemma_records_after_append(&before, encode(cmd@), entry);
            }
        }
        Ok(())
    }

    /// The keys that the store lists for compaction, in order.
    pub closed spec fn live_keys(&self) -> Seq<Seq<char>> {
        key_views(self.keys@)
    }

    /// The log is compact: a compaction segment in which the live records
    /// stand back to back, each once, and an empty active segment.
    pub open spec fn is_compact(&self) -> bool {
        &&& self.segments().len() == 2
        &&& self.segments()[1].data.len() == 0
        &&& self.uncompacted() == 0
        &&& self.live_keys().no_duplicates()
        &&& forall|k: Seq<char>| #[trigger]
            self.index().contains_key(k) <==> self.live_keys().contains(k)
        &&& forall|k: Seq<char>| #[trigger]
            self.index().contains_key(k) ==> self.index()[k].gen == self.segments()[0].gen
        &&& self.segments()[0].data.len() == total_len(self.live_keys(), self.index())
    }

    /// Copies the live record of every key to a new segment of the
    /// generation `gen`, and turns the index to the copies.
    fn move_live(&mut self, gen: u64) -> (r: (MyWriter, Vec<String>, Ghost<Compaction>))
        requires
            old(self).wf(),
            gen > old(self).current_gen,
        ensures
            compacting(old(self).index@, old(self)@, old(self).records(), gen, r.2@),
            r.2@.index == final(self).index@,
            r.2@.moved == final(self).index@,
            r.2@.image == r.0.data(),
            r.2@.live == key_views(r.1@),
            r.0.wf(),
            r.0.flushed() == 0,
            final(self).readers == old(self).readers,
            final(self).writer == old(self).writer,
            final(self).current_gen == old(self).current_gen,
            final(self).uncompacted == old(self).uncompacted,
            final(self).journal == old(self).journal,
            final(self).mirrored == old(self).mirrored,
    {
        let ghost before = *self;
        let mut target = MyWriter::new();
        let mut live: Vec<String> = Vec::new();
        let ghost mut c = Compaction {
            index: self.index@,
            image: Seq::empty(),
            records: Seq::empty(),
            moved: Map::empty(),
            live: Seq::empty(),
        };
        proof {
            before.lemma_bounded();
            lemma_replay_entries_ok(before.segments());
            before.lemma_entries_older(gen);
            lemma_decode_bounds(c.image, 0);
            assert(scan(c.image, 0).len() == 0);
            assert(c.live =~= key_views(live@));
        }
        let mut i: usize = 0;
        while i < self.keys.len()
            invariant
                i <= self.keys.len(),
                before.wf(),
                gen > before.current_gen,
                self.readers == before.readers,
                self.writer == before.writer,
                self.current_gen == before.current_gen,
                self.uncompacted == before.uncompacted,
                self.journal == before.journal,
                self.mirrored == before.mirrored,
                self.keys == before.keys,
                compacting(before.index@, before@, before.records(), gen, c),
                c.index == self.index@,
                c.image == target.data(),
                c.live == key_views(live@),
                target.wf(),
                target.flushed() == 0,
                forall|k: Seq<char>|
                    before.index@.contains_key(k) ==> entry_ok(
                        before.segments(),
                        k,
                        #[trigger] before.index@[k],
                    ),
                forall|k: Seq<char>|
                    before.index@.contains_key(k) ==> (#[trigger] before.index@[k]).gen < gen,
                forall|j: int|
                    0 <= j < i && self.index@.contains_key(self.keys@[j]@) ==> c.moved.contains_key(
                        #[trigger] self.keys@[j]@,
                    ),
            decreases self.keys.len() - i,
        {
            let key = self.keys[i].clone();
            let found: Option<CommandOffset> = match self.index.get(key.as_str()) {
                Some(entry) => Some(*entry),
                None => None,
            };
            if let Some(entry) = found {
                if entry.gen != gen {
                    let start = target.offset();
                    assert(self.segments() == before.segments());
                    let ghost source = before.segments()[locate(before.segments(), entry.gen)].data;
                    proof {
                        before.lemma_bounded();
                        assert(!c.moved.contains_key(key@));
                        assert(c.index[key@] == before.index@[key@]);
                        assert(entry_ok(before.segments(), key@, before.index@[key@]));
                    }
                    if let Some(data) = self.segment_data(entry.gen) {
                        target.write(slice_subrange(data, entry.start, entry.start + entry.len));
                    }
                    let end = target.offset();
                    self.index.insert(key.clone(), CommandOffset { gen, start, len: entry.len });
                    live.push(key);
                    proof {
                        assert(before@[key@] == value_in(source, entry));
                        assert(before.records()[key@] == source.subrange(
                            entry.start as int,
                            entry.start + entry.len,
                        ));
                        lemma_compaction_step(
                            before.index@,
                            before@,
                            before.records(),
                            gen,
                            c,
                            key@,
                            source,
                            entry,
                        );
                        c = moved_one(c, gen, key@, source, entry);
                        assert(c.live =~= key_views(live@));
                    }
                }
            }
            i = i + 1;
        }
        proof {
            assert(c.moved =~= self.index@) by {
                assert forall|k: Seq<char>| self.index@.contains_key(k) implies c.moved.contains_key(
                    k,
                ) by {
                    assert(before.index@.contains_key(k));
                    let j = choose|j: int|
                        0 <= j < before.keys@.len() && (#[trigger] before.keys@[j])@ == k;
                    assert(c.moved.contains_key(self.keys@[j]@));
                }
            }
        }
        (target, live, Ghost(c))
    }

    /// Every entry of the index lies in a segment older than `gen`, if the
    /// active segment does.
    proof fn lemma_entries_older(&self, gen: u64)
        requires
            self.wf(),
            gen > self.current_gen,
        ensures
            forall|k: Seq<char>|
                self.index@.contains_key(k) ==> (#[trigger] self.index@[k]).gen < gen,
    {
        self.lemma_bounded();
        lemma_replay_entries_ok(self.segments());
        let segments = self.segments();
        assert forall|k: Seq<char>| self.index@.contains_key(k) implies (
        #[trigger] self.index@[k]).gen < gen by {
            let i = locate(segments, self.index@[k].gen);
            if i < segments.len() - 1 {
                assert(segments[i].gen < segments[segments.len() - 1].gen);
            }
        }
    }

    /// Notes in the journal what a compaction into the segment `gen`
    /// does to the directory: the compaction segment and the next active
    /// segment are created, the compaction segment is filled, and every
    /// segment that the log had is deleted.
    fn note_compaction(&mut self, gen: u64, image: Vec<u8>)
        requires
            gen < u64::MAX,
        ensures
            final(self).journal() == old(self).journal() + compaction_ops(
                old(self).segments(),
                gen,
                image@,
            ),
            final(self).index == old(self).index,
            final(self).keys == old(self).keys,
            final(self).readers == old(self).readers,
            final(self).writer == old(self).writer,
            final(self).current_gen == old(self).current_gen,
            final(self).uncompacted == old(self).uncompacted,
            final(self).mirrored == old(self).mirrored,
    {
        let ghost before = *self;
        let ghost segments = self.segments();
        let ghost head = before.journal() + seq![
            FileOpView::Create { gen },
            FileOpView::Create { gen: (gen + 1) as u64 },
            FileOpView::Append { gen, data: image@ },
        ];
        self.note(FileOp::Create { gen });
        self.note(FileOp::Create { gen: gen + 1 });
        self.note(FileOp::Append { gen, data: image });
        assert(self.journal() =~= head + removals(segments, 0));
        let mut i: usize = 0;
        while i < self.readers.len()
            invariant
                i <= self.readers.len(),
                segments == before.segments(),
                self.index == before.index,
                self.keys == before.keys,
                self.readers == before.readers,
                self.writer == before.writer,
                self.current_gen == before.current_gen,
                self.uncompacted == before.uncompacted,
                self.mirrored == before.mirrored,
                self.journal() == head + removals(segments, i as nat),
            decreases self.readers.len() - i,
        {
            let stale = self.readers[i].gen;
            self.note(FileOp::Remove { gen: stale });
            proof {
                assert(segments[i as int] == self.readers@[i as int]@);
                assert((head + removals(segments, i as nat)).push(
                    FileOpView::Remove { gen: stale },
                ) =~= head + removals(segments, (i + 1) as nat));
            }
            i = i + 1;
        }
        self.note(FileOp::Remove { gen: self.current_gen });
        proof {
            assert((head + removals(segments, i as nat)).push(
                FileOpView::Remove { gen: self.current_gen },
            ) =~= head + removals(segments, segments.len()));
            assert(head + removals(segments, segments.len()) =~= before.journal() + compaction_ops(
                segments,
                gen,
                image@,
            ));
        }
    }

    /// Notes a file operation in the journal.
    fn note(&mut self, op: FileOp)
        ensures
            final(self).journal() == old(self).journal().push(op@),
            final(self).index == old(self).index,
            final(self).keys == old(self).keys,
            final(self).readers == old(self).readers,
            final(self).writer == old(self).writer,
            final(self).current_gen == old(self).current_gen,
            final(self).uncompacted == old(self).uncompacted,
            final(self).mirrored == old(self).mirrored,
    {
        self.journal.push(op);
        assert(self.journal() =~= old(self).journal().push(op@));
    }

    /// A store whose log was compacted is in order, compact, and holds
    /// what it held.
    proof fn lemma_compacted(&self, before: &StoreWriter, gen: u64, c: Compaction)
        requires
            before.wf(),
            gen < u64::MAX,
            compacting(before.index@, before@, before.records(), gen, c),
            c.index == self.index@,
            c.moved == self.index@,
            c.live == key_views(self.keys@),
            self.segments() == seq![
                SegmentView { gen, data: c.image },
                SegmentView { gen: (gen + 1) as u64, data: Seq::empty() },
            ],
            self.uncompacted == 0,
            self.writer.wf(),
            self.writer.flushed() == 0,
            self.writer.data().len() == 0,
            gen > before.current_gen,
            self.mirrored == before.mirrored,
            self.journal() == before.journal() + compaction_ops(before.segments(), gen, c.image),
        ensures
            self.wf(),
            self@ == before@,
            self.records() == before.records(),
            self.is_compact(),
    {
        assert(self.carries()) by {
            let old_segments = before.segments();
            assert forall|i: int| 0 <= i < old_segments.len() implies (
            #[trigger] old_segments[i]).gen < gen by {
                if i < old_segments.len() - 1 {
                    assert(old_segments[i].gen < old_segments[old_segments.len() - 1].gen);
                }
            }
            lemma_apply_ops_concat(
                before.mirrored@,
                before.journal(),
                compaction_ops(old_segments, gen, c.image),
            );
            lemma_compaction_carries(old_segments, gen, c.image);
            assert(self.segments() =~= compacted(gen, c.image));
        }
        let segments = self.segments();
        let first = seq![SegmentView { gen, data: c.image }];
        assert(segments =~= first.push(SegmentView { gen: (gen + 1) as u64, data: Seq::empty() }));
        lemma_replay_empty_segment(first, (gen + 1) as u64);
        assert(first.drop_last() =~= Seq::<SegmentView>::empty());
        assert(replay(first.drop_last()) == nothing_replayed());
        assert(replay(segments) == Replayed { index: c.moved, stale: 0 });
        assert(all_complete(segments)) by {
            assert forall|i: int| 0 <= i < segments.len() implies complete(
                #[trigger] segments[i].data,
            ) by {
                if i == 0 {
                } else {
                    assert(segments[i].data =~= Seq::<u8>::empty());
                }
            }
        }
        assert(keys_cover(self.keys@, self.index@)) by {
            assert forall|k: Seq<char>| self.index@.contains_key(k) implies exists|i: int|
                0 <= i < self.keys@.len() && (#[trigger] self.keys@[i])@ == k by {
                assert(c.moved.contains_key(k));
                let j = choose|j: int| 0 <= j < c.live.len() && c.live[j] == k;
                assert(self.keys@[j]@ == k);
            }
        }
        lemma_locate(segments, 0);
        assert(self.records() =~= before.records()) by {
            assert(self.index@.dom() =~= before.index@.dom());
            assert forall|k: Seq<char>| self.records().contains_key(k) implies #[trigger] self.records()[k]
                == before.records()[k] by {
                assert(c.moved.contains_key(k));
            }
        }
        assert(self@ =~= before@) by {
            assert(self.index@.dom() =~= before.index@.dom());
            assert forall|k: Seq<char>| self@.contains_key(k) implies #[trigger] self@[k] == before@[k] by {
                assert(c.moved.contains_key(k));
            }
        }
        assert forall|k: Seq<char>| #[trigger]
            self.index().contains_key(k) <==> self.live_keys().contains(k) by {
            if self.index().contains_key(k) {
                assert(c.moved.contains_key(k));
            }
            if self.live_keys().contains(k) {
                let j = choose|j: int| 0 <= j < c.live.len() && c.live[j] == k;
                assert(c.moved.contains_key(c.live[j]));
            }
        }
        assert forall|k: Seq<char>| #[trigger]
            self.index().contains_key(k) implies self.index()[k].gen == self.segments()[0].gen by {
            assert(c.moved.contains_key(k));
        }
    }

    /// Compacts the log.
    ///
    /// The live record of every key is copied, byte for byte, to a new
    /// segment of the generation after the active one's; the index is
    /// turned to the copies; a new active segment of the generation after
    /// that is begun; and every older segment is given up. Where no two
    /// generations are left to number the new segments, nothing is done.
    pub fn compact(&mut self)
        requires
            old(self).wf(),
        ensures
            final(self).wf(),
            final(self)@ == old(self)@,
            final(self).records() == old(self).records(),
            final(self).mirrored() == old(self).mirrored(),
            final(self).index().dom() == old(self).index().dom(),
            forall|k: Seq<char>|
                final(self).index().contains_key(k) ==> (#[trigger] final(self).index()[k]).len
                    == old(self).index()[k].len,
            if old(self).current_gen() <= u64::MAX - 2 {
                &&& final(self).is_compact()
                &&& final(self).current_gen() == old(self).current_gen() + 2
                &&& final(self).segments()[0].gen == old(self).current_gen() + 1
                &&& final(self).segments()[1].gen == old(self).current_gen() + 2
                &&& final(self).journal() == old(self).journal() + compaction_ops(
                    old(self).segments(),
                    (old(self).current_gen() + 1) as u64,
                    final(self).segments()[0].data,
                )
            } else {
                *final(self) == *old(self)
            },
    {
        if self.current_gen > u64::MAX - 2 {
            return ;
        }
        let ghost before = *self;
        let compaction_gen: u64 = self.current_gen + 1;
        let new_gen: u64 = self.current_gen + 2;
        let (mut target, live, c) = self.move_live(compaction_gen);
        let pending = target.flush();
        assert(pending@ =~= target.data());
        self.note_compaction(compaction_gen, pending);
        let mut readers: Vec<Segment> = Vec::new();
        readers.push(Segment { gen: compaction_gen, data: target.into_bytes() });
        self.readers = readers;
        self.writer = MyWriter::new();
        self.current_gen = new_gen;
        self.keys = live;
        self.uncompacted = 0;
        proof {
            assert(self.segments() =~= seq![
                SegmentView { gen: compaction_gen, data: c@.image },
                SegmentView { gen: new_gen, data: Seq::empty() },
            ]);
            self.lemma_compacted(&before, compaction_gen, c@);
            assert forall|k: Seq<char>| self.index().contains_key(k) implies (
            #[trigger] self.index()[k]).len == before.index()[k].len by {
                assert(c@.moved.contains_key(k));
            }
        }
    }

    /// What the invariant says to a user of the store: the log is in
    /// order and made of whole records, its last segment is the active
    /// one, the index and the count of stale bytes are those of the
    /// replayed log, the store holds what the log holds, the journal
    /// brings the directory in line with the log, and the bytes that an
    /// entry covers are a `Set` record for the key with the key's value.
    pub proof fn lemma_wf(&self)
        requires
            self.wf(),
        ensures
            self.segments().len() > 0,
            self.segments().last().gen == self.current_gen(),
            ordered(self.segments()),
            bounded(self.segments()),
            all_complete(self.segments()),
            self.index() == replay(self.segments()).index,
            self.uncompacted() == clamp(replay(self.segments()).stale),
            self@ == view_of(self.segments()),
            apply_ops(self.mirrored(), self.journal()) == image(self.segments()),
            forall|k: Seq<char>|
                self.index().contains_key(k) ==> entry_ok(
                    self.segments(),
                    k,
                    #[trigger] self.index()[k],
                ),
            forall|k: Seq<char>|
                self.index().contains_key(k) ==> {
                    &&& (#[trigger] self.records()[k]).len() == self.index()[k].len
                    &&& decode_at(self.records()[k], 0) == Some(
                        (
                            CommandView::SetValue { key: k, value: self@[k] },
                            self.index()[k].len as int,
                        ),
                    )
                },
    {
        self.lemma_bounded();
        lemma_replay_entries_ok(self.segments());
        assert forall|k: Seq<char>| self.index().contains_key(k) implies {
            &&& (#[trigger] self.records()[k]).len() == self.index()[k].len
            &&& decode_at(self.records()[k], 0) == Some(
                (CommandView::SetValue { key: k, value: self@[k] }, self.index()[k].len as int),
            )
        } by {
            let entry = self.index()[k];
            let data = self.segments()[locate(self.segments(), entry.gen)].data;
            let bytes = self.records()[k];
            assert(entry_ok(self.segments(), k, entry));
            assert(same_window(data, entry.start as int, bytes, 0, entry.len as int));
            lemma_decode_local(data, entry.start as int, bytes, 0, entry.len as int);
        }
    }

    /// A store whose log is the log of another with one more, empty
    /// segment, as `open` makes it of that one's segments, holds what that
    /// one held, with the same index, the same records and the same count
    /// of stale bytes; and those segments are such that `open` takes them.
    pub proof fn lemma_reopen(&self, reopened: &StoreWriter)
        requires
            self.wf(),
            reopened.wf(),
            reopened.segments().len() == self.segments().len() + 1,
            reopened.segments().drop_last() == self.segments(),
            reopened.segments().last().data.len() == 0,
        ensures
            ordered(self.segments()),
            all_complete(self.segments()),
            reopened@ == self@,
            reopened.index() == self.index(),
            reopened.uncompacted() == self.uncompacted(),
            reopened.records() == self.records(),
    {
        let gen = reopened.segments().last().gen;
        let longer = self.segments().push(SegmentView { gen, data: Seq::empty() });
        assert(reopened.segments() =~= longer) by {
            assert(reopened.segments().last().data =~= Seq::<u8>::empty());
            assert forall|i: int| 0 <= i < longer.len() implies reopened.segments()[i]
                == longer[i] by {
                if i < self.segments().len() {
                    assert(reopened.segments().drop_last()[i] == reopened.segments()[i]);
                }
            }
        }
        self.lemma_bounded();
        lemma_replay_empty_segment(self.segments(), gen);
        lemma_view_of_new_segment(self.segments(), gen);
        lemma_replay_entries_ok(self.segments());
        assert(reopened.records() =~= self.records()) by {
            assert(extends(self.segments(), longer)) by {
                assert forall|i: int| 0 <= i < self.segments().len() implies {
                    &&& (#[trigger] longer[i]).gen == self.segments()[i].gen
                    &&& self.segments()[i].data.len() <= longer[i].data.len()
                    &&& longer[i].data.subrange(0, self.segments()[i].data.len() as int)
                        == self.segments()[i].data
                } by {
                    assert(longer[i].data.subrange(0, self.segments()[i].data.len() as int)
                        =~= self.segments()[i].data);
                }
            }
            assert forall|k: Seq<char>| self.records().contains_key(k) implies #[trigger] reopened.records()[k]
                == self.records()[k] by {
                lemma_entry_bytes_stable(self.segments(), longer, k, self.index@[k]);
            }
        }
    }

    /// The bytes of a compact log are the live records and nothing
    /// else: the log is as long as the entries of the index are together.
    pub proof fn lemma_compact_size(&self)
        requires
            self.is_compact(),
        ensures
            log_size(self.segments()) == total_len(self.live_keys(), self.index()),
    {
        let segments = self.segments();
        assert(segments.drop_last().drop_last() =~= Seq::<SegmentView>::empty());
        reveal_with_fuel(log_size, 3);
    }

    /// The generation of the active segment.
    pub fn active_gen(&self) -> (gen: u64)
        ensures
            gen == self.current_gen(),
    {
        self.current_gen
    }

    /// The count of stale bytes.
    pub fn stale_bytes(&self) -> (count: usize)
        ensures
            count == self.uncompacted(),
    {
        self.uncompacted
    }

    /// Ends the store and gives the segments of its log, oldest first.
    pub fn into_segments(self) -> (segments: Vec<Segment>)
        ensures
            views(segments@) == self.segments(),
    {
        let StoreWriter { readers, writer, current_gen, .. } = self;
        let mut segments = readers;
        segments.push(Segment { gen: current_gen, data: writer.into_bytes() });
        assert(views(segments@) =~= self.segments());
        segments
    }

    /// Takes the file operations that were decided since the journal was
    /// last taken, in the order in which they are to be carried out.
    ///
    /// Carried out on the directory that mirrored the log when the journal
    /// was last taken, they make it mirror the log as it is now.
    pub fn take_journal(&mut self) -> (ops: Vec<FileOp>)
        requires
            old(self).wf(),
        ensures
            final(self).wf(),
            ops@.len() == old(self).journal().len(),
            forall|i: int| 0 <= i < ops@.len() ==> (#[trigger] ops@[i])@ == old(self).journal()[i],
            apply_ops(old(self).mirrored(), old(self).journal()) == image(old(self).segments()),
            final(self).mirrored() == image(old(self).segments()),
            final(self).journal() == Seq::<FileOpView>::empty(),
            final(self).segments() == old(self).segments(),
            final(self).index() == old(self).index(),
            final(self).uncompacted() == old(self).uncompacted(),
            final(self).current_gen() == old(self).current_gen(),
            final(self).live_keys() == old(self).live_keys(),
            final(self)@ == old(self)@,
    {
        let mut ops: Vec<FileOp> = Vec::new();
        std::mem::swap(&mut ops, &mut self.journal);
        self.mirrored = Ghost(image(self.segments()));
        assert(self.journal() =~= Seq::<FileOpView>::empty());
        ops
    }

    /// The bytes of the segment `gen`, if the log has one.
    fn segment_data(&self, gen: u64) -> (r: Option<&[u8]>)
        requires
            ordered(self.segments()),
        ensures
            match r {
                Some(data) => has_gen(self.segments(), gen) && data@ == self.segments()[locate(
                    self.segments(),
                    gen,
                )].data,
                None => !has_gen(self.segments(), gen),
            },
    {
        let ghost segments = self.segments();
        if gen == self.current_gen {
            proof {
                lemma_locate(segments, segments.len() - 1);
            }
            return Some(self.writer.as_slice());
        }
        let mut i: usize = 0;
        while i < self.readers.len()
            invariant
                i <= self.readers.len(),
                segments == self.segments(),
                ordered(segments),
                gen != self.current_gen,
                forall|j: int| 0 <= j < i ==> (#[trigger] segments[j]).gen != gen,
            decreases self.readers.len() - i,
        {
            if self.readers[i].gen == gen {
                proof {
                    assert(segments[i as int] == self.readers@[i as int]@);
                    lemma_locate(segments, i as int);
                }
                return Some(self.readers[i].data.as_slice());
            }
            assert(segments[i as int] == self.readers@[i as int]@);
            i = i + 1;
        }
        None
    }

    /// The current value of `key`, or `None` where it has none.
    pub fn get(&self, key: String) -> (r: Result<Option<String>>)
        requires
            self.wf(),
        ensures
            r matches Ok(found) && match found {
                Some(value) => self@.contains_key(key@) && self@[key@] == value@,
                None => !self@.contains_key(key@),
            },
    {
        let entry: CommandOffset = match self.index.get(key.as_str()) {
            Some(entry) => *entry,
            None => { return Ok(None); },
        };
        proof {
            self.lemma_bounded();
            lemma_replay_entries_ok(self.segments());
        }
        let data = match self.segment_data(entry.gen) {
            Some(data) => data,
            None => { return Err(KvsError::SerdeError); },
        };
        let bytes = slice_subrange(data, entry.start, entry.start + entry.len);
        proof {
            assert(same_window(data@, entry.start as int, bytes@, 0, entry.len as int));
            lemma_decode_local(data@, entry.start as int, bytes@, 0, entry.len as int);
        }
        match decode_command(bytes, 0) {
            Some((Command::SetValue { key: _, value }, _)) => Ok(Some(value)),
            _ => Err(KvsError::SerdeError),
        }
    }
}

} // verus!
