//! A chunk of input: lines parted by newlines, each a record or skipped,
//! gathered into one table.

use crate::cities_map::{
    all_observed, empty_entries, entries_view, entries_wf, lemma_merge_tables_identity,
    lemma_merge_upsert, merge_tables, table_wf, upsert, upsert_entry, CitiesMap, Table,
};
use crate::city_data::CityData;
use crate::record::{lemma_record_of_wf, record_of, record_wf, DataLine, Record};
use std::collections::HashMap;
use vstd::prelude::*;
use vstd::slice::slice_subrange;

verus! {

/// ASCII line feed, which ends a line.
pub const NEWLINE: u8 = 10;

/// Where the first line of `s` ends: the index of its first newline, or its
/// length if it has none.
pub open spec fn first_newline(s: Seq<u8>) -> int
    decreases s.len(),
{
    if s.len() == 0 || s[0] == NEWLINE {
        0
    } else {
        1 + first_newline(s.subrange(1, s.len() as int))
    }
}

/// The records of one line: the record it holds, or none if it is empty or
/// malformed.
pub open spec fn line_records(line: Seq<u8>) -> Seq<Record> {
    match record_of(line) {
        Some(r) => seq![r],
        None => Seq::empty(),
    }
}

/// The records of a chunk, in the order of its lines. Lines are parted by
/// newlines; the last line need not end in one.
pub open spec fn records_of(s: Seq<u8>) -> Seq<Record>
    decreases s.len(),
{
    let end = first_newline(s);
    if 0 <= end < s.len() {
        line_records(s.subrange(0, end)) + records_of(s.subrange(end + 1, s.len() as int))
    } else {
        line_records(s)
    }
}

/// The table that a sequence of records builds, taken in one after the other.
pub open spec fn table_of(records: Seq<Record>) -> Table
    decreases records.len(),
{
    if records.len() == 0 {
        Map::empty()
    } else {
        upsert(table_of(records.drop_last()), records.last())
    }
}

/// `first_newline` is the one index at which a newline stands with none
/// before it, or the length where there is no newline at all.
pub proof fn lemma_first_newline(s: Seq<u8>, end: int)
    requires
        0 <= end <= s.len(),
        end < s.len() ==> s[end] == NEWLINE,
        forall|i: int| 0 <= i < end ==> s[i] != NEWLINE,
    ensures
        first_newline(s) == end,
    decreases s.len(),
{
    if s.len() == 0 || s[0] == NEWLINE {
    } else {
        let rest = s.subrange(1, s.len() as int);
        assert forall|i: int| 0 <= i < end - 1 implies rest[i] != NEWLINE by {
            assert(rest[i] == s[i + 1]);
        }
        lemma_first_newline(rest, end - 1);
    }
}

/// `first_newline` lies within the sequence, at a newline if short of the
/// end, and past no newline.
pub proof fn lemma_first_newline_bounds(s: Seq<u8>)
    ensures
        0 <= first_newline(s) <= s.len(),
        first_newline(s) < s.len() ==> s[first_newline(s)] == NEWLINE,
        forall|i: int| 0 <= i < first_newline(s) ==> s[i] != NEWLINE,
    decreases s.len(),
{
    if s.len() == 0 || s[0] == NEWLINE {
    } else {
        let rest = s.subrange(1, s.len() as int);
        lemma_first_newline_bounds(rest);
        assert forall|i: int| 0 <= i < first_newline(s) implies s[i] != NEWLINE by {
            if i > 0 {
                assert(rest[i - 1] == s[i]);
            }
        }
    }
}

/// Every record of a chunk is well formed, and there are no more records
/// than bytes.
pub proof fn lemma_records_of(s: Seq<u8>)
    ensures
        forall|i: int| 0 <= i < records_of(s).len() ==> record_wf(#[trigger] records_of(s)[i]),
        records_of(s).len() <= s.len(),
    decreases s.len(),
{
    let end = first_newline(s);
    lemma_first_newline_bounds(s);
    if 0 <= end < s.len() {
        let line = s.subrange(0, end);
        let rest = s.subrange(end + 1, s.len() as int);
        lemma_records_of(rest);
        lemma_line_records(line);
    } else {
        lemma_line_records(s);
    }
}

/// A line gives at most one record, a well-formed one, and only if it has
/// at least four bytes.
pub proof fn lemma_line_records(line: Seq<u8>)
    ensures
        line_records(line).len() <= 1,
        line_records(line).len() == 1 ==> record_wf(line_records(line)[0]) && line.len() >= 4,
{
    if record_of(line) is Some {
        lemma_record_of_wf(line);
        let p = crate::record::delimiter_index(line);
        crate::record::lemma_delimiter_unique(line, p, p);
    }
}

/// Well-formed records build a well-formed table, in which no city has more
/// readings than there were records.
pub proof fn lemma_table_of(records: Seq<Record>)
    requires
        forall|i: int| 0 <= i < records.len() ==> record_wf(#[trigger] records[i]),
    ensures
        table_wf(table_of(records)),
        forall|k: u64| #[trigger]
            table_of(records).contains_key(k) ==> table_of(records)[k].count <= records.len(),
    decreases records.len(),
{
    if records.len() > 0 {
        let front = records.drop_last();
        assert forall|i: int| 0 <= i < front.len() implies record_wf(#[trigger] front[i]) by {
            assert(front[i] == records[i]);
        }
        lemma_table_of(front);
        crate::cities_map::lemma_upsert_wf(table_of(front), records.last());
        assert forall|k: u64| #[trigger] table_of(records).contains_key(k) implies table_of(
            records,
        )[k].count <= records.len() by {
            if k != records.last().key {
                assert(table_of(front).contains_key(k));
            }
        }
    }
}

/// A chunk may be cut after any newline: the records of `a + b` are those of
/// `a` followed by those of `b`, where `a` is empty or ends in a newline.
pub proof fn lemma_records_of_concat(a: Seq<u8>, b: Seq<u8>)
    requires
        a.len() == 0 || a.last() == NEWLINE,
    ensures
        records_of(a + b) == records_of(a) + records_of(b),
    decreases a.len(),
{
    if a.len() == 0 {
        assert(a + b =~= b);
        assert(records_of(a) =~= Seq::<Record>::empty());
        assert(records_of(a) + records_of(b) =~= records_of(b));
    } else {
        let whole = a + b;
        let end = first_newline(a);
        lemma_first_newline_bounds(a);
        assert(end < a.len()) by {
            if end == a.len() {
                assert(a[a.len() - 1] != NEWLINE);
            }
        }
        assert forall|i: int| 0 <= i < end implies whole[i] != NEWLINE by {
            assert(whole[i] == a[i]);
        }
        assert(whole[end] == a[end]);
        lemma_first_newline(whole, end);
        let rest = a.subrange(end + 1, a.len() as int);
        assert(whole.subrange(0, end) =~= a.subrange(0, end));
        assert(whole.subrange(end + 1, whole.len() as int) =~= rest + b);
        if rest.len() > 0 {
            assert(rest.last() == a.last());
        }
        lemma_records_of_concat(rest, b);
        let head = line_records(a.subrange(0, end));
        assert(records_of(whole) == head + (records_of(rest) + records_of(b)));
        assert(records_of(a) == head + records_of(rest));
        assert(head + (records_of(rest) + records_of(b)) =~= (head + records_of(rest))
            + records_of(b));
    }
}

/// Every city of a table built from records has at least one reading.
pub proof fn lemma_table_of_observed(records: Seq<Record>)
    ensures
        all_observed(table_of(records)),
    decreases records.len(),
{
    if records.len() > 0 {
        lemma_table_of_observed(records.drop_last());
    }
}

/// Records may be gathered in parts: the table of `first + second` is the
/// table of `first` merged with the table of `second`.
pub proof fn lemma_table_of_concat(first: Seq<Record>, second: Seq<Record>)
    ensures
        table_of(first + second) == merge_tables(table_of(first), table_of(second)),
    decreases second.len(),
{
    if second.len() == 0 {
        assert(first + second =~= first);
        lemma_merge_tables_identity(table_of(first));
    } else {
        let front = second.drop_last();
        assert((first + second).drop_last() =~= first + front);
        assert((first + second).last() == second.last());
        lemma_table_of_concat(first, front);
        lemma_table_of_observed(first);
        lemma_table_of_observed(front);
        lemma_merge_upsert(table_of(first), table_of(front), second.last());
    }
}

/// The readings of the city filed under `key`, in the order of the records.
pub open spec fn readings_of(records: Seq<Record>, key: u64) -> Seq<int>
    decreases records.len(),
{
    if records.len() == 0 {
        Seq::empty()
    } else if records.last().key == key {
        readings_of(records.drop_last(), key).push(records.last().tenths)
    } else {
        readings_of(records.drop_last(), key)
    }
}

/// The name in the first record filed under `key`, if there is such a record.
pub open spec fn first_name_of(records: Seq<Record>, key: u64) -> Option<Seq<u8>>
    decreases records.len(),
{
    if records.len() == 0 {
        None
    } else {
        match first_name_of(records.drop_last(), key) {
            Some(name) => Some(name),
            None => if records.last().key == key {
                Some(records.last().name)
            } else {
                None
            },
        }
    }
}

/// The sum of a sequence of numbers.
pub open spec fn sum_of(numbers: Seq<int>) -> int
    decreases numbers.len(),
{
    if numbers.len() == 0 {
        0
    } else {
        sum_of(numbers.drop_last()) + numbers.last()
    }
}

/// What the table of some records holds for one city: the city is there if
/// and only if a record is filed under its key; its count is the number of
/// its readings, its sum their sum, its minimum and maximum the smallest and
/// the largest of them, and its name that of its first record.
pub proof fn lemma_table_of_city(records: Seq<Record>, key: u64)
    ensures
        table_of(records).contains_key(key) <==> readings_of(records, key).len() > 0,
        table_of(records).contains_key(key) <==> first_name_of(records, key) is Some,
        table_of(records).contains_key(key) ==> {
            let stats = table_of(records)[key];
            let readings = readings_of(records, key);
            &&& stats.count == readings.len()
            &&& stats.sum == sum_of(readings)
            &&& forall|i: int| 0 <= i < readings.len() ==> stats.min <= #[trigger] readings[i] <= stats.max
            &&& exists|i: int| 0 <= i < readings.len() && #[trigger] readings[i] == stats.min
            &&& exists|i: int| 0 <= i < readings.len() && #[trigger] readings[i] == stats.max
            &&& first_name_of(records, key) == Some(stats.name)
        },
    decreases records.len(),
{
    if records.len() > 0 {
        let front = records.drop_last();
        let last = records.last();
        lemma_table_of_city(front, key);
        let before = readings_of(front, key);
        let readings = readings_of(records, key);
        let table = table_of(records);
        assert(table == upsert(table_of(front), last));
        if last.key != key {
            assert(readings == before);
            assert(table.contains_key(key) == table_of(front).contains_key(key));
            if table.contains_key(key) {
                assert(table[key] == table_of(front)[key]);
            }
        } else {
            let stats = table[key];
            assert(readings == before.push(last.tenths));
            assert(readings.drop_last() =~= before);
            let newest = readings.len() - 1;
            assert(readings[newest] == last.tenths);
            if table_of(front).contains_key(key) {
                let old = table_of(front)[key];
                let low = choose|i: int| 0 <= i < before.len() && #[trigger] before[i] == old.min;
                let high = choose|i: int| 0 <= i < before.len() && #[trigger] before[i] == old.max;
                assert(readings[low] == old.min);
                assert(readings[high] == old.max);
                assert(stats.min == old.min || stats.min == readings[newest]);
                assert(stats.max == old.max || stats.max == readings[newest]);
                assert forall|i: int| 0 <= i < readings.len() implies stats.min
                    <= #[trigger] readings[i] <= stats.max by {
                    if i < before.len() {
                        assert(readings[i] == before[i]);
                    }
                }
                assert(exists|i: int| 0 <= i < readings.len() && #[trigger] readings[i] == stats.min) by {
                    if stats.min == old.min {
                        assert(readings[low] == stats.min);
                    } else {
                        assert(readings[newest] == stats.min);
                    }
                }
                assert(exists|i: int| 0 <= i < readings.len() && #[trigger] readings[i] == stats.max) by {
                    if stats.max == old.max {
                        assert(readings[high] == stats.max);
                    } else {
                        assert(readings[newest] == stats.max);
                    }
                }
            } else {
                assert(before.len() == 0);
                assert(readings.len() == 1);
                assert(sum_of(before) == 0);
                assert(readings[0] == stats.min && readings[0] == stats.max);
            }
        }
    }
}

/// Gathers the records of a chunk into a table. Empty lines and malformed
/// lines are passed over.
pub fn process_chunk<'a>(buffer: &'a [u8]) -> (table: CitiesMap<'a>)
    ensures
        table@ == table_of(records_of(buffer@)),
{
    let n = buffer.len();
    let mut data: HashMap<u64, CityData<'a>> = empty_entries();
    let mut pos: usize = 0;
    let ghost mut done: Seq<Record> = Seq::empty();
    proof {
        assert(buffer@.subrange(0, n as int) =~= buffer@);
    }
    while pos < n
        invariant
            n == buffer@.len(),
            pos <= n,
            entries_wf(data@),
            entries_view(data@) == table_of(done),
            forall|i: int| 0 <= i < done.len() ==> record_wf(#[trigger] done[i]),
            done.len() <= pos,
            records_of(buffer@) == done + records_of(buffer@.subrange(pos as int, n as int)),
        decreases n - pos,
    {
        let ghost rest = buffer@.subrange(pos as int, n as int);
        let mut end = pos;
        while end < n && buffer[end] != NEWLINE
            invariant
                n == buffer@.len(),
                pos <= end <= n,
                forall|i: int| pos <= i < end ==> buffer@[i] != NEWLINE,
            decreases n - end,
        {
            end += 1;
        }
        let ghost line = buffer@.subrange(pos as int, end as int);
        let ghost after = if end < n {
            buffer@.subrange(end + 1, n as int)
        } else {
            Seq::<u8>::empty()
        };
        proof {
            lemma_first_newline(rest, end - pos);
            assert(rest.subrange(0, end - pos) =~= line);
            if end < n {
                assert(rest.subrange(end - pos + 1, rest.len() as int) =~= after);
            } else {
                assert(rest =~= line);
                assert(records_of(after) =~= Seq::<Record>::empty());
            }
            assert(records_of(rest) =~= line_records(line) + records_of(after));
            lemma_line_records(line);
            lemma_table_of(done);
        }
        if end > pos {
            match DataLine::parse(slice_subrange(buffer, pos, end)) {
                Ok(parsed) => {
                    proof {
                        assert(line_records(line) =~= seq![parsed@]);
                        assert(done.push(parsed@).drop_last() =~= done);
                    }
                    upsert_entry(&mut data, parsed);
                    proof {
                        done = done.push(parsed@);
                    }
                },
                Err(_) => {},
            }
        }
        proof {
            assert(records_of(buffer@) =~= done + records_of(after));
        }
        pos = if end < n {
            end + 1
        } else {
            n
        };
        proof {
            assert(buffer@.subrange(pos as int, n as int) =~= after);
        }
    }
    proof {
        assert(records_of(buffer@.subrange(n as int, n as int)) =~= Seq::<Record>::empty());
        assert(done + Seq::<Record>::empty() =~= done);
    }
    CitiesMap::from_entries(data)
}

} // verus!
