//! What a log means: the records that its segments hold, and the index
//! that replaying them builds.
//!
//! Everything here is specification and proof. A segment's data is read
//! as records from its first byte on; replay walks the segments in the
//! order given and the records in file order.

use crate::command::{decode_at, lemma_decode_bounds, lemma_decode_local, CommandView};
use crate::json::same_window;
use vstd::prelude::*;

verus! {

/// Where a record lies: the generation of its segment, the offset of its
/// first byte, and its length in bytes.
#[derive(Debug, Clone, Copy, PartialEq, Eq, Structural)]
pub struct CommandOffset {
    pub gen: u64,
    pub start: usize,
    pub len: usize,
}

/// A segment as mathematics: its generation and its bytes.
pub struct SegmentView {
    pub gen: u64,
    pub data: Seq<u8>,
}

/// A record found in a segment's data.
pub struct Record {
    pub cmd: CommandView,
    pub start: int,
    pub end: int,
}

impl Record {
    /// The number of bytes of the record.
    pub open spec fn len(self) -> int {
        self.end - self.start
    }
}

/// The index of a log, and the bytes of its records that the index no
/// longer reaches.
pub struct Replayed {
    pub index: Map<Seq<char>, CommandOffset>,
    pub stale: nat,
}

/// The records that stand back to back in `data` from `pos` on, up to the
/// end of the data or to the first byte at which no record starts.
pub open spec fn scan(data: Seq<u8>, pos: int) -> Seq<Record>
    decreases data.len() - pos,
{
    match decode_at(data, pos) {
        Some((cmd, end)) => if pos < end <= data.len() {
            seq![Record { cmd, start: pos, end }] + scan(data, end)
        } else {
            Seq::empty()
        },
        None => Seq::empty(),
    }
}

/// The place at which `scan` stops.
pub open spec fn scan_stop(data: Seq<u8>, pos: int) -> int {
    if scan(data, pos).len() == 0 {
        pos
    } else {
        scan(data, pos).last().end
    }
}

/// The data is records from its first byte to its last.
pub open spec fn complete(data: Seq<u8>) -> bool {
    scan_stop(data, 0) == data.len()
}

/// The length of the entry that `index` holds for `key`, or 0.
pub open spec fn prior_len(index: Map<Seq<char>, CommandOffset>, key: Seq<char>) -> nat {
    if index.contains_key(key) {
        index[key].len as nat
    } else {
        0
    }
}

/// Replays one record of the segment `gen`.
///
/// A `Set` makes the index point at the record; the entry that it
/// replaces, if any, becomes stale. A `Remove` deletes the entry, which
/// becomes stale, and is stale itself.
pub open spec fn replay_record(st: Replayed, gen: u64, r: Record) -> Replayed {
    let key = r.cmd.key();
    match r.cmd {
        CommandView::SetValue { .. } => Replayed {
            index: st.index.insert(
                key,
                CommandOffset { gen, start: r.start as usize, len: r.len() as usize },
            ),
            stale: st.stale + prior_len(st.index, key),
        },
        CommandView::Remove { .. } => Replayed {
            index: st.index.remove(key),
            stale: st.stale + prior_len(st.index, key) + r.len() as nat,
        },
    }
}

/// Replays records in order.
pub open spec fn replay_records(st: Replayed, gen: u64, records: Seq<Record>) -> Replayed
    decreases records.len(),
{
    if records.len() == 0 {
        st
    } else {
        replay_record(replay_records(st, gen, records.drop_last()), gen, records.last())
    }
}

/// Replays segments in order, each from its first record to its last.
pub open spec fn replay(segments: Seq<SegmentView>) -> Replayed
    decreases segments.len(),
{
    if segments.len() == 0 {
        Replayed { index: Map::empty(), stale: 0 }
    } else {
        replay_records(
            replay(segments.drop_last()),
            segments.last().gen,
            scan(segments.last().data, 0),
        )
    }
}

/// Every segment is records from its first byte to its last.
pub open spec fn all_complete(segments: Seq<SegmentView>) -> bool {
    forall|i: int| 0 <= i < segments.len() ==> complete(#[trigger] segments[i].data)
}

/// The generations rise strictly.
pub open spec fn ordered(segments: Seq<SegmentView>) -> bool {
    forall|i: int, j: int|
        0 <= i < j < segments.len() ==> (#[trigger] segments[i]).gen < (#[trigger] segments[j]).gen
}

/// Some segment has the generation `gen`.
pub open spec fn has_gen(segments: Seq<SegmentView>, gen: u64) -> bool {
    exists|i: int| 0 <= i < segments.len() && (#[trigger] segments[i]).gen == gen
}

/// The place of the segment with the generation `gen`.
pub open spec fn locate(segments: Seq<SegmentView>, gen: u64) -> int {
    choose|i: int| 0 <= i < segments.len() && (#[trigger] segments[i]).gen == gen
}

/// At `entry`, `data` holds a `Set` record for `key`, and the record is
/// as long as the entry says.
pub open spec fn record_at(data: Seq<u8>, entry: CommandOffset, key: Seq<char>) -> bool {
    &&& entry.start + entry.len <= data.len()
    &&& decode_at(data, entry.start as int) matches Some((cmd, end))
    &&& end == entry.start + entry.len
    &&& cmd is SetValue
    &&& cmd.key() == key
}

/// The value of the record that `entry` points at in `data`.
pub open spec fn value_in(data: Seq<u8>, entry: CommandOffset) -> Seq<char> {
    decode_at(data, entry.start as int).unwrap().0->value
}

/// `entry` points at a `Set` record for `key` in one of the segments.
pub open spec fn entry_ok(segments: Seq<SegmentView>, key: Seq<char>, entry: CommandOffset) -> bool {
    &&& has_gen(segments, entry.gen)
    &&& record_at(segments[locate(segments, entry.gen)].data, entry, key)
}

/// The value of the record that `entry` points at.
pub open spec fn entry_value(segments: Seq<SegmentView>, entry: CommandOffset) -> Seq<char> {
    value_in(segments[locate(segments, entry.gen)].data, entry)
}

/// In an ordered log a generation names one segment.
pub proof fn lemma_locate(segments: Seq<SegmentView>, i: int)
    requires
        ordered(segments),
        0 <= i < segments.len(),
    ensures
        has_gen(segments, segments[i].gen),
        locate(segments, segments[i].gen) == i,
{
    let j = locate(segments, segments[i].gen);
    assert(segments[j].gen == segments[i].gen);
    if j < i {
        assert(segments[j].gen < segments[i].gen);
    } else if i < j {
        assert(segments[i].gen < segments[j].gen);
    }
}

/// Each record that `scan` finds is what `decode_at` reads at its start,
/// lies inside the data, and starts where the one before it ends.
pub proof fn lemma_scan_records(data: Seq<u8>, pos: int, k: int)
    requires
        0 <= k < scan(data, pos).len(),
    ensures
        decode_at(data, scan(data, pos)[k].start) == Some(
            (scan(data, pos)[k].cmd, scan(data, pos)[k].end),
        ),
        pos <= scan(data, pos)[k].start < scan(data, pos)[k].end <= data.len(),
    decreases data.len() - pos,
{
    let (cmd, end) = decode_at(data, pos).unwrap();
    if k > 0 {
        lemma_scan_records(data, end, k - 1);
        assert(scan(data, pos)[k] == scan(data, end)[k - 1]);
    }
}

/// Scanning from `pos` is the first record and then scanning from its end.
pub proof fn lemma_scan_unfold(data: Seq<u8>, pos: int)
    ensures
        decode_at(data, pos) matches Some((cmd, end)) ==> {
            &&& pos < end <= data.len()
            &&& scan(data, pos) == seq![Record { cmd, start: pos, end }] + scan(data, end)
            &&& scan_stop(data, pos) == scan_stop(data, end)
        },
        decode_at(data, pos) is None ==> scan(data, pos).len() == 0,
{
    lemma_decode_bounds(data, pos);
    if let Some((cmd, end)) = decode_at(data, pos) {
        let rest = scan(data, end);
        let all = seq![Record { cmd, start: pos, end }] + rest;
        if rest.len() > 0 {
            assert(all.last() == rest.last());
        }
    }
}

/// One more record behind data that is complete from `pos` on is one more
/// record at the end of the scan.
pub proof fn lemma_scan_extend(data: Seq<u8>, pos: int, more: Seq<u8>, cmd: CommandView)
    requires
        0 <= pos <= data.len(),
        scan_stop(data, pos) == data.len(),
        decode_at(data + more, data.len() as int) == Some(
            (cmd, (data.len() + more.len()) as int),
        ),
    ensures
        scan(data + more, pos) == scan(data, pos).push(
            Record { cmd, start: data.len() as int, end: (data.len() + more.len()) as int },
        ),
        scan_stop(data + more, pos) == data.len() + more.len(),
    decreases data.len() - pos,
{
    let longer = data + more;
    let added = Record { cmd, start: data.len() as int, end: (data.len() + more.len()) as int };
    lemma_decode_bounds(longer, data.len() as int);
    if pos == data.len() {
        lemma_scan_unfold(data, pos);
        lemma_decode_bounds(data, pos);
        assert(scan(data, pos).len() == 0);
        lemma_scan_unfold(longer, pos);
        lemma_decode_bounds(longer, longer.len() as int);
        assert(scan(longer, longer.len() as int).len() == 0);
        assert(scan(longer, pos) =~= scan(data, pos).push(added));
    } else {
        lemma_scan_unfold(data, pos);
        assert(decode_at(data, pos) is Some) by {
            if decode_at(data, pos) is None {
                assert(scan_stop(data, pos) == pos);
            }
        }
        let (first, end) = decode_at(data, pos).unwrap();
        assert(same_window(data, pos, longer, pos, end - pos));
        lemma_decode_local(data, pos, longer, pos, end - pos);
        lemma_scan_unfold(longer, pos);
        lemma_scan_extend(data, end, more, cmd);
        let head = seq![Record { cmd: first, start: pos, end }];
        assert(head + scan(data, end).push(added) =~= (head + scan(data, end)).push(added));
    }
}

/// Replaying one more record is one more step.
pub proof fn lemma_replay_push(st: Replayed, gen: u64, records: Seq<Record>, r: Record)
    ensures
        replay_records(st, gen, records.push(r)) == replay_record(
            replay_records(st, gen, records),
            gen,
            r,
        ),
{
    assert(records.push(r).drop_last() =~= records);
}

/// A segment of no bytes has no records, and replaying it changes nothing.
pub proof fn lemma_replay_empty_segment(segments: Seq<SegmentView>, gen: u64)
    ensures
        complete(Seq::<u8>::empty()),
        replay(segments.push(SegmentView { gen, data: Seq::empty() })) == replay(segments),
{
    let empty = Seq::<u8>::empty();
    lemma_decode_bounds(empty, 0);
    assert(scan(empty, 0).len() == 0);
    let longer = segments.push(SegmentView { gen, data: empty });
    assert(longer.drop_last() =~= segments);
}

/// One more record at the end of the last segment is one more step of
/// replay.
pub proof fn lemma_replay_append(segments: Seq<SegmentView>, more: Seq<u8>, cmd: CommandView)
    requires
        segments.len() > 0,
        complete(segments.last().data),
        decode_at(segments.last().data + more, segments.last().data.len() as int) == Some(
            (cmd, (segments.last().data.len() + more.len()) as int),
        ),
    ensures
        complete(segments.last().data + more),
        replay(
            segments.update(
                segments.len() - 1,
                SegmentView { gen: segments.last().gen, data: segments.last().data + more },
            ),
        ) == replay_record(
            replay(segments),
            segments.last().gen,
            Record {
                cmd,
                start: segments.last().data.len() as int,
                end: (segments.last().data.len() + more.len()) as int,
            },
        ),
{
    let last = segments.last();
    let longer = segments.update(
        segments.len() - 1,
        SegmentView { gen: last.gen, data: last.data + more },
    );
    let added = Record { cmd, start: last.data.len() as int, end: (last.data.len() + more.len()) as int };
    lemma_scan_extend(last.data, 0, more, cmd);
    assert(longer.drop_last() =~= segments.drop_last());
    lemma_replay_push(replay(segments.drop_last()), last.gen, scan(last.data, 0), added);
}

} // verus!
