//! What the file operations of the journal do to a directory, and the
//! proof that they carry a log's segments there.

use crate::engines::segment::FileOpView;
use crate::log::{has_gen, lemma_locate, locate, ordered, SegmentView};
use vstd::prelude::*;

verus! {

/// The directory that mirrors a log: a file for each segment, with the
/// segment's bytes.
pub open spec fn image(segments: Seq<SegmentView>) -> Map<u64, Seq<u8>> {
    Map::new(|gen: u64| has_gen(segments, gen), |gen: u64| segments[locate(segments, gen)].data)
}

/// What one file operation makes of a directory.
pub open spec fn apply_op(dir: Map<u64, Seq<u8>>, op: FileOpView) -> Map<u64, Seq<u8>> {
    match op {
        FileOpView::Create { gen } => if dir.contains_key(gen) {
            dir
        } else {
            dir.insert(gen, Seq::empty())
        },
        FileOpView::Append { gen, data } => if dir.contains_key(gen) {
            dir.insert(gen, dir[gen] + data)
        } else {
            dir.insert(gen, data)
        },
        FileOpView::Remove { gen } => dir.remove(gen),
    }
}

/// What file operations, carried out in order, make of a directory.
pub open spec fn apply_ops(dir: Map<u64, Seq<u8>>, ops: Seq<FileOpView>) -> Map<u64, Seq<u8>>
    decreases ops.len(),
{
    if ops.len() == 0 {
        dir
    } else {
        apply_op(apply_ops(dir, ops.drop_last()), ops.last())
    }
}

/// Carrying out one run of file operations and then another is carrying
/// out the two as one.
pub proof fn lemma_apply_ops_concat(dir: Map<u64, Seq<u8>>, first: Seq<FileOpView>, then: Seq<FileOpView>)
    ensures
        apply_ops(dir, first + then) == apply_ops(apply_ops(dir, first), then),
    decreases then.len(),
{
    if then.len() == 0 {
        assert(first + then =~= first);
    } else {
        lemma_apply_ops_concat(dir, first, then.drop_last());
        assert((first + then).drop_last() =~= first + then.drop_last());
        assert((first + then).last() == then.last());
    }
}

/// Carrying out one more file operation is one more step.
pub proof fn lemma_apply_ops_push(dir: Map<u64, Seq<u8>>, ops: Seq<FileOpView>, op: FileOpView)
    ensures
        apply_ops(dir, ops.push(op)) == apply_op(apply_ops(dir, ops), op),
{
    assert(ops.push(op).drop_last() =~= ops);
}

/// The deletions of the first `n` segments of a log.
pub open spec fn removals(segments: Seq<SegmentView>, n: nat) -> Seq<FileOpView> {
    Seq::new(n, |i: int| FileOpView::Remove { gen: segments[i].gen })
}

/// What a compaction does to the directory: it creates the compaction
/// segment `gen` and the next active segment, fills the compaction segment
/// with `image`, and deletes every segment of the log that was compacted.
pub open spec fn compaction_ops(segments: Seq<SegmentView>, gen: u64, image: Seq<u8>) -> Seq<
    FileOpView,
> {
    seq![
        FileOpView::Create { gen },
        FileOpView::Create { gen: (gen + 1) as u64 },
        FileOpView::Append { gen, data: image },
    ] + removals(segments, segments.len())
}

/// The log with `bytes` added to its last segment.
pub open spec fn appended(segments: Seq<SegmentView>, bytes: Seq<u8>) -> Seq<SegmentView> {
    segments.update(
        segments.len() - 1,
        SegmentView { gen: segments.last().gen, data: segments.last().data + bytes },
    )
}

/// The log that a compaction into the segment `gen` leaves.
pub open spec fn compacted(gen: u64, image: Seq<u8>) -> Seq<SegmentView> {
    seq![
        SegmentView { gen, data: image },
        SegmentView { gen: (gen + 1) as u64, data: Seq::empty() },
    ]
}

/// Creating the file of a new generation brings the directory of a
/// log in line with the log that has one more, empty segment.
pub proof fn lemma_create_carries(segments: Seq<SegmentView>, gen: u64)
    requires
        ordered(segments.push(SegmentView { gen, data: Seq::empty() })),
    ensures
        apply_op(image(segments), FileOpView::Create { gen }) == image(
            segments.push(SegmentView { gen, data: Seq::empty() }),
        ),
{
    let longer = segments.push(SegmentView { gen, data: Seq::empty() });
    let made = apply_op(image(segments), FileOpView::Create { gen });
    lemma_ordered_prefix(longer, segments.len() as int);
    assert(longer.take(segments.len() as int) =~= segments);
    assert forall|g: u64| made.contains_key(g) <==> image(longer).contains_key(g) by {
        if image(longer).contains_key(g) {
            let i = locate(longer, g);
            if i < segments.len() {
                assert(segments[i].gen == g);
            }
        }
        if has_gen(segments, g) {
            let i = locate(segments, g);
            assert(longer[i].gen == g);
        }
        if g == gen {
            assert(longer[segments.len() as int].gen == g);
        }
    }
    assert(!has_gen(segments, gen)) by {
        if has_gen(segments, gen) {
            let i = locate(segments, gen);
            assert(longer[i].gen < longer[segments.len() as int].gen);
        }
    }
    assert forall|g: u64| made.contains_key(g) implies made[g] == image(longer)[g] by {
        if g == gen {
            lemma_locate(longer, segments.len() as int);
        } else {
            let i = locate(segments, g);
            assert(longer[i] == segments[i]);
            lemma_locate(longer, i);
        }
    }
    assert(made =~= image(longer));
}

/// A log in order is in order up to any of its segments.
pub proof fn lemma_ordered_prefix(segments: Seq<SegmentView>, n: int)
    requires
        ordered(segments),
        0 <= n <= segments.len(),
    ensures
        ordered(segments.take(n)),
{
    let shorter = segments.take(n);
    assert forall|a: int, b: int| 0 <= a < b < shorter.len() implies (#[trigger] shorter[a]).gen < (
    #[trigger] shorter[b]).gen by {
        assert(segments[a].gen < segments[b].gen);
    }
}

/// Appending to the file of the last segment brings the directory
/// of a log in line with the log that has the bytes added to that
/// segment.
pub proof fn lemma_append_carries(segments: Seq<SegmentView>, bytes: Seq<u8>)
    requires
        segments.len() > 0,
        ordered(segments),
    ensures
        apply_op(image(segments), FileOpView::Append { gen: segments.last().gen, data: bytes })
            == image(appended(segments, bytes)),
{
    let longer = appended(segments, bytes);
    let gen = segments.last().gen;
    let made = apply_op(image(segments), FileOpView::Append { gen, data: bytes });
    let last = segments.len() - 1;
    lemma_locate(segments, last);
    assert(ordered(longer)) by {
        assert forall|a: int, b: int| 0 <= a < b < longer.len() implies (#[trigger] longer[a]).gen < (
        #[trigger] longer[b]).gen by {
            assert(segments[a].gen < segments[b].gen);
        }
    }
    assert forall|g: u64| made.contains_key(g) <==> image(longer).contains_key(g) by {
        if image(longer).contains_key(g) {
            let i = locate(longer, g);
            assert(segments[i].gen == g);
        }
        if has_gen(segments, g) {
            let i = locate(segments, g);
            assert(longer[i].gen == g);
        }
    }
    assert forall|g: u64| made.contains_key(g) implies made[g] == image(longer)[g] by {
        let i = locate(segments, g);
        assert(longer[i].gen == g);
        lemma_locate(longer, i);
        lemma_locate(segments, i);
    }
    assert(made =~= image(longer));
}

/// One of the first `n` segments has the generation `gen`.
pub open spec fn among(segments: Seq<SegmentView>, n: nat, gen: u64) -> bool {
    exists|i: int| 0 <= i < n && (#[trigger] segments[i]).gen == gen
}

/// Deleting the files of the first `n` segments of a log, one by one,
/// leaves the files of the other generations as they were.
proof fn lemma_removals(dir: Map<u64, Seq<u8>>, head: Seq<FileOpView>, segments: Seq<SegmentView>, n: nat)
    requires
        n <= segments.len(),
    ensures
        forall|g: u64| #[trigger]
            apply_ops(dir, head + removals(segments, n)).contains_key(g) <==> (apply_ops(
                dir,
                head,
            ).contains_key(g) && !among(segments, n, g)),
        forall|g: u64| #[trigger]
            apply_ops(dir, head + removals(segments, n)).contains_key(g) ==> apply_ops(
                dir,
                head + removals(segments, n),
            )[g] == apply_ops(dir, head)[g],
    decreases n,
{
    if n == 0 {
        assert(head + removals(segments, 0) =~= head);
    } else {
        let shorter = head + removals(segments, (n - 1) as nat);
        let all = head + removals(segments, n);
        lemma_removals(dir, head, segments, (n - 1) as nat);
        assert(all.drop_last() =~= shorter);
        assert(all.last() == FileOpView::Remove { gen: segments[n - 1].gen });
        let before = apply_ops(dir, shorter);
        let after = apply_ops(dir, all);
        assert(after == before.remove(segments[n - 1].gen));
        assert forall|g: u64| #[trigger]
            after.contains_key(g) <==> (apply_ops(dir, head).contains_key(g) && !among(
                segments,
                n,
                g,
            )) by {
            assert(after.contains_key(g) <==> before.contains_key(g) && g != segments[n - 1].gen);
            if among(segments, n, g) {
                let i = choose|i: int| 0 <= i < n && (#[trigger] segments[i]).gen == g;
                if i < n - 1 {
                    assert(among(segments, (n - 1) as nat, g));
                }
            }
            if among(segments, (n - 1) as nat, g) {
                let i = choose|i: int| 0 <= i < n - 1 && (#[trigger] segments[i]).gen == g;
                assert(segments[i].gen == g);
            }
            if segments[n - 1].gen == g {
                assert(among(segments, n, g));
            }
        }
        assert forall|g: u64| #[trigger] after.contains_key(g) implies after[g] == apply_ops(
            dir,
            head,
        )[g] by {
            assert(before.contains_key(g));
        }
    }
}

/// The file operations of a compaction bring the directory of a log
/// in line with the compacted log.
pub proof fn lemma_compaction_carries(segments: Seq<SegmentView>, gen: u64, bytes: Seq<u8>)
    requires
        ordered(segments),
        gen < u64::MAX,
        forall|i: int| 0 <= i < segments.len() ==> (#[trigger] segments[i]).gen < gen,
    ensures
        apply_ops(image(segments), compaction_ops(segments, gen, bytes)) == image(
            compacted(gen, bytes),
        ),
{
    let dir = image(segments);
    let next = (gen + 1) as u64;
    let head = seq![
        FileOpView::Create { gen },
        FileOpView::Create { gen: next },
        FileOpView::Append { gen, data: bytes },
    ];
    let after = compacted(gen, bytes);
    assert(!has_gen(segments, gen) && !has_gen(segments, next)) by {
        if has_gen(segments, gen) {
            let i = locate(segments, gen);
            assert(segments[i].gen < gen);
        }
        if has_gen(segments, next) {
            let i = locate(segments, next);
            assert(segments[i].gen < gen);
        }
    }
    let one = apply_op(dir, head[0]);
    let two = apply_op(one, head[1]);
    let three = apply_op(two, head[2]);
    assert(apply_ops(dir, head) == three) by {
        assert(head.drop_last().drop_last().drop_last() =~= Seq::<FileOpView>::empty());
        assert(head.drop_last().drop_last().last() == head[0]);
        assert(head.drop_last().last() == head[1]);
        assert(head.last() == head[2]);
        reveal_with_fuel(apply_ops, 4);
    }
    assert(three[gen] =~= bytes);
    lemma_removals(dir, head, segments, segments.len());
    let made = apply_ops(dir, compaction_ops(segments, gen, bytes));
    lemma_locate(after, 0);
    lemma_locate(after, 1);
    assert forall|g: u64| made.contains_key(g) <==> image(after).contains_key(g) by {
        if image(after).contains_key(g) {
            let i = locate(after, g);
            assert(g == gen || g == next);
        }
        if made.contains_key(g) {
            if g != gen && g != next {
                assert(three.contains_key(g));
                assert(dir.contains_key(g));
                let i = locate(segments, g);
                assert(among(segments, segments.len(), g));
            }
        }
        if g == gen {
            assert(after[0].gen == g);
        }
        if g == next {
            assert(after[1].gen == g);
        }
    }
    assert forall|g: u64| made.contains_key(g) implies made[g] == image(after)[g] by {
        if g == gen {
        } else {
            assert(g == next);
        }
    }
    assert(made =~= image(after));
}

} // verus!
