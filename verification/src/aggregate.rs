//! A whole file at once: the chunks of a plan gathered one by one and merged
//! into a single table, which is the table of the file itself whenever the
//! plan cuts no line.

use crate::chunk::{
    lemma_records_of, lemma_records_of_concat, lemma_table_of, lemma_table_of_concat,
    process_chunk, records_of, table_of,
};
use crate::cities_map::{lemma_merge_tables_identity, merge_tables, CitiesMap, Table};
use crate::planner::{
    contiguous, lemma_plan_for, line_aligned, line_boundary, plan_for, ByteRange,
};
use crate::record::Record;
use vstd::prelude::*;
use vstd::slice::slice_subrange;

verus! {

/// The bytes of `data` that `range` spans.
pub open spec fn chunk_of(data: Seq<u8>, range: ByteRange) -> Seq<u8> {
    data.subrange(range.start as int, range.end as int)
}

/// The table of each chunk, merged in the order of the ranges.
pub open spec fn merged_chunks(data: Seq<u8>, ranges: Seq<ByteRange>) -> Table
    decreases ranges.len(),
{
    if ranges.len() == 0 {
        Map::empty()
    } else {
        merge_tables(
            merged_chunks(data, ranges.drop_last()),
            table_of(records_of(chunk_of(data, ranges.last()))),
        )
    }
}

/// The ranges lie within `len` bytes, in ascending order, and share no byte.
pub open spec fn ordered_within(ranges: Seq<ByteRange>, len: int) -> bool {
    &&& forall|i: int| 0 <= i < ranges.len() ==> (#[trigger] ranges[i]).start <= ranges[i].end <= len
    &&& forall|i: int, j: int|
        0 <= i < j < ranges.len() ==> (#[trigger] ranges[i]).end <= (#[trigger] ranges[j]).start
}

/// Contiguous ranges without their last range are contiguous up to where
/// that range starts, and every range of them lies in order within the
/// whole.
pub proof fn lemma_contiguous(ranges: Seq<ByteRange>, to: int)
    requires
        contiguous(ranges, 0, to),
    ensures
        ordered_within(ranges, to),
        ranges.len() > 0 ==> contiguous(ranges.drop_last(), 0, ranges.last().start as int),
    decreases ranges.len(),
{
    if ranges.len() > 0 {
        let front = ranges.drop_last();
        let last = ranges.last();
        if front.len() > 0 {
            assert(front[0] == ranges[0]);
            assert(front.last() == ranges[ranges.len() - 2]);
            assert forall|i: int| 0 <= i < front.len() - 1 implies (#[trigger] front[i]).end
                == front[i + 1].start by {
                assert(front[i] == ranges[i]);
                assert(front[i + 1] == ranges[i + 1]);
            }
        }
        lemma_contiguous(front, last.start as int);
        assert forall|i: int| 0 <= i < ranges.len() implies (#[trigger] ranges[i]).start
            <= ranges[i].end <= to by {
            if i < front.len() {
                assert(front[i] == ranges[i]);
            }
        }
        assert forall|i: int, j: int| 0 <= i < j < ranges.len() implies (#[trigger] ranges[i]).end
            <= (#[trigger] ranges[j]).start by {
            assert(front[i] == ranges[i]);
            if j < front.len() {
                assert(front[j] == ranges[j]);
            }
        }
    }
}

/// However a file is cut, so long as no line is cut, the chunks give the
/// table of the file: the tables of the chunks of contiguous, line-aligned
/// ranges, merged in order, are the table of the bytes that the ranges span.
/// One range over the whole file and any number of ranges therefore agree.
pub proof fn lemma_chunks_make_whole(data: Seq<u8>, ranges: Seq<ByteRange>, to: int)
    requires
        contiguous(ranges, 0, to),
        to <= data.len(),
        line_aligned(data, ranges),
    ensures
        merged_chunks(data, ranges) == table_of(records_of(data.subrange(0, to))),
    decreases ranges.len(),
{
    if ranges.len() == 0 {
        assert(records_of(data.subrange(0, 0)) =~= Seq::<Record>::empty());
    } else {
        let front = ranges.drop_last();
        let last = ranges.last();
        let from = last.start as int;
        lemma_contiguous(ranges, to);
        assert(to == last.end);
        assert forall|i: int| 0 <= i < front.len() implies line_boundary(
            data,
            (#[trigger] front[i]).end as int,
        ) by {
            assert(front[i] == ranges[i]);
        }
        lemma_chunks_make_whole(data, front, from);
        let head = data.subrange(0, from);
        let chunk = chunk_of(data, last);
        assert(head + chunk =~= data.subrange(0, to));
        if from == to {
            assert(chunk =~= Seq::<u8>::empty());
            assert(records_of(chunk) =~= Seq::<Record>::empty());
            assert(head =~= data.subrange(0, to));
            lemma_merge_tables_identity(table_of(records_of(head)));
        } else {
            if front.len() > 0 {
                assert(front.last() == ranges[ranges.len() - 2]);
                assert(line_boundary(data, from));
            }
            if from > 0 {
                assert(head.last() == data[from - 1]);
            }
            lemma_records_of_concat(head, chunk);
            lemma_table_of_concat(records_of(head), records_of(chunk));
        }
    }
}

/// Two ways of cutting a file, neither of which cuts a line, give the same
/// table; so do one worker and any number of workers.
pub proof fn lemma_plans_agree(data: Seq<u8>, one: Seq<ByteRange>, other: Seq<ByteRange>)
    requires
        contiguous(one, 0, data.len() as int),
        line_aligned(data, one),
        contiguous(other, 0, data.len() as int),
        line_aligned(data, other),
    ensures
        merged_chunks(data, one) == merged_chunks(data, other),
        merged_chunks(data, one) == table_of(records_of(data)),
{
    lemma_chunks_make_whole(data, one, data.len() as int);
    lemma_chunks_make_whole(data, other, data.len() as int);
    assert(data.subrange(0, data.len() as int) =~= data);
}

/// However many workers a file is planned for, the chunks of the plan give
/// the table of the file.
pub proof fn lemma_worker_count_is_immaterial(data: Seq<u8>, workers: int)
    requires
        1 <= workers,
        data.len() <= u64::MAX,
    ensures
        plan_for(data, workers) matches Ok(ranges) ==> merged_chunks(data, ranges) == table_of(
            records_of(data),
        ),
        plan_for(data, 1) matches Ok(whole) && merged_chunks(data, whole) == table_of(
            records_of(data),
        ),
{
    lemma_plan_for(data, workers);
    lemma_plan_for(data, 1);
    if let Ok(ranges) = plan_for(data, workers) {
        lemma_chunks_make_whole(data, ranges, data.len() as int);
    }
    if let Ok(whole) = plan_for(data, 1) {
        lemma_chunks_make_whole(data, whole, data.len() as int);
    }
    assert(data.subrange(0, data.len() as int) =~= data);
}

/// Gathers the chunks of `data` that `ranges` names, one after the other,
/// and merges their tables. Where the ranges are a plan for `data` as the
/// planner makes it, the result is the table of `data` as one chunk.
pub fn aggregate<'a>(data: &'a [u8], ranges: &[ByteRange]) -> (table: CitiesMap<'a>)
    requires
        ordered_within(ranges@, data@.len() as int),
    ensures
        table@ == merged_chunks(data@, ranges@),
        contiguous(ranges@, 0, data@.len() as int) && line_aligned(data@, ranges@) ==> table@
            == table_of(records_of(data@)),
{
    let size = data.len();
    let mut table = CitiesMap::new();
    let mut done: usize = 0;
    let ghost mut covered: int = 0;
    while done < ranges.len()
        invariant
            size == data@.len(),
            done <= ranges@.len(),
            ordered_within(ranges@, size as int),
            table@ == merged_chunks(data@, ranges@.take(done as int)),
            0 <= covered <= size,
            done > 0 ==> covered == ranges@[done - 1].end,
            forall|k: u64| #[trigger] table@.contains_key(k) ==> table@[k].count <= covered,
        decreases ranges.len() - done,
    {
        let range = ranges[done];
        let ghost before = table@;
        proof {
            if done > 0 {
                assert(ranges@[done - 1].end <= ranges@[done as int].start);
            }
            assert(ranges@.take(done + 1).drop_last() =~= ranges@.take(done as int));
        }
        let chunk = slice_subrange(data, range.start as usize, range.end as usize);
        let part = process_chunk(chunk);
        proof {
            lemma_records_of(chunk@);
            lemma_table_of(records_of(chunk@));
            assert forall|k: u64| #[trigger]
                before.contains_key(k) && part@.contains_key(k) implies before[k].count
                + part@[k].count <= u64::MAX by {}
        }
        table.merge(&part);
        proof {
            covered = range.end as int;
            assert forall|k: u64| #[trigger] table@.contains_key(k) implies table@[k].count
                <= covered by {
                if before.contains_key(k) && part@.contains_key(k) {
                } else if before.contains_key(k) {
                } else {
                    assert(part@.contains_key(k));
                }
            }
        }
        done += 1;
    }
    proof {
        assert(ranges@.take(done as int) =~= ranges@);
        if contiguous(ranges@, 0, size as int) && line_aligned(data@, ranges@) {
            lemma_chunks_make_whole(data@, ranges@, size as int);
            assert(data@.subrange(0, size as int) =~= data@);
        }
    }
    table
}

} // verus!
