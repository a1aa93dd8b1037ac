//! The table of all cities seen so far, filed under the fingerprints of
//! their names.

use crate::city_data::{merge_stats, observe, seeded, stats_wf, CityData, CityStats};
use crate::fnv::fingerprint;
use crate::record::{record_wf, DataLine, Record};
use std::collections::HashMap;
use vstd::prelude::*;
use vstd::std_specs::hash::spec_hash_map_iter;
use vstd::std_specs::iter::IteratorSpec;

verus! {

/// How many cities a table has room for before it must grow.
pub const MAX_CITIES: usize = 10_000;

/// A table as a map from fingerprint to statistics.
pub type Table = Map<u64, CityStats>;

/// The table after the record `r` was taken in: the city's statistics
/// observe the reading, and a city not seen before is entered under the
/// record's name.
pub open spec fn upsert(t: Table, r: Record) -> Table {
    if t.contains_key(r.key) {
        t.insert(r.key, observe(t[r.key], r.tenths))
    } else {
        t.insert(r.key, seeded(r.name, r.tenths))
    }
}

/// The table that holds the readings of `a` and of `b` together: a city of
/// both has its statistics merged, a city of one is taken as it is.
pub open spec fn merge_tables(a: Table, b: Table) -> Table {
    Map::new(
        |k: u64| a.contains_key(k) || b.contains_key(k),
        |k: u64|
            if a.contains_key(k) && b.contains_key(k) {
                merge_stats(a[k], b[k])
            } else if a.contains_key(k) {
                a[k]
            } else {
                b[k]
            },
    )
}

/// A table as records can have built it: finitely many cities, each with at
/// least one reading and well-formed statistics, filed under the fingerprint
/// of its name.
pub open spec fn table_wf(t: Table) -> bool {
    &&& t.dom().finite()
    &&& forall|k: u64| #[trigger]
        t.contains_key(k) ==> stats_wf(t[k]) && t[k].count >= 1 && k == fingerprint(t[k].name)
}

/// No city of both tables has more readings in the two together than a
/// `u64` can count.
pub open spec fn mergeable(a: Table, b: Table) -> bool {
    forall|k: u64| #[trigger]
        a.contains_key(k) && b.contains_key(k) ==> a[k].count + b[k].count <= u64::MAX
}

/// `entries` lists the cities of `t`, each exactly once.
pub open spec fn lists_table(entries: Seq<CityStats>, t: Table) -> bool {
    &&& entries.len() == t.dom().len()
    &&& forall|i: int|
        0 <= i < entries.len() ==> t.contains_key(fingerprint(#[trigger] entries[i].name)) && t[fingerprint(
            entries[i].name,
        )] == entries[i]
    &&& forall|i: int, j: int|
        0 <= i < j < entries.len() ==> fingerprint(#[trigger] entries[i].name) != fingerprint(
            #[trigger] entries[j].name,
        )
}

/// The statistics of a sequence of cities.
pub open spec fn stats_of(entries: Seq<CityData>) -> Seq<CityStats> {
    entries.map_values(|c: CityData| c@)
}

/// Taking in a well-formed record keeps a table well formed.
pub proof fn lemma_upsert_wf(t: Table, r: Record)
    requires
        table_wf(t),
        record_wf(r),
    ensures
        table_wf(upsert(t, r)),
{
    let u = upsert(t, r);
    if t.contains_key(r.key) {
        crate::city_data::lemma_observe_wf(t[r.key], r.tenths);
    } else {
        crate::city_data::lemma_observe_wf(crate::city_data::empty_stats(r.name), r.tenths);
    }
    assert forall|k: u64| #[trigger] u.contains_key(k) implies stats_wf(u[k]) && u[k].count >= 1
        && k == fingerprint(u[k].name) by {
        if k != r.key {
            assert(t.contains_key(k));
        }
    }
}

/// Merging well-formed tables gives a well-formed table.
pub proof fn lemma_merge_tables_wf(a: Table, b: Table)
    requires
        table_wf(a),
        table_wf(b),
    ensures
        table_wf(merge_tables(a, b)),
{
    let m = merge_tables(a, b);
    assert(m.dom() =~= a.dom().union(b.dom()));
    assert forall|k: u64| #[trigger] m.contains_key(k) implies stats_wf(m[k]) && m[k].count >= 1
        && k == fingerprint(m[k].name) by {
        if a.contains_key(k) && b.contains_key(k) {
            crate::city_data::lemma_merge_wf(a[k], b[k]);
        }
    }
}

/// Every city of a table has at least one reading.
pub open spec fn all_observed(t: Table) -> bool {
    forall|k: u64| #[trigger] t.contains_key(k) ==> t[k].count >= 1
}

/// Taking in a record after a merge is merging after the right side took it
/// in: the step that lets a table be built chunk by chunk.
pub proof fn lemma_merge_upsert(a: Table, b: Table, r: Record)
    requires
        all_observed(a),
        all_observed(b),
    ensures
        merge_tables(a, upsert(b, r)) == upsert(merge_tables(a, b), r),
        all_observed(upsert(b, r)),
        all_observed(merge_tables(a, b)),
{
    let left = merge_tables(a, upsert(b, r));
    let right = upsert(merge_tables(a, b), r);
    assert forall|k: u64| left.contains_key(k) == right.contains_key(k) by {}
    assert forall|k: u64| #[trigger] left.contains_key(k) implies left[k] == right[k] by {
        if k == r.key {
            if a.contains_key(k) && b.contains_key(k) {
                crate::city_data::lemma_merge_observe(a[k], b[k], r.tenths);
            } else if a.contains_key(k) {
                crate::city_data::lemma_merge_seeded(a[k], r.name, r.tenths);
            }
        }
    }
    assert(left =~= right);
}

/// An empty table is the identity of merging tables.
pub proof fn lemma_merge_tables_identity(a: Table)
    ensures
        merge_tables(a, Map::<u64, CityStats>::empty()) == a,
        merge_tables(Map::<u64, CityStats>::empty(), a) == a,
{
    assert(merge_tables(a, Map::<u64, CityStats>::empty()) =~= a);
    assert(merge_tables(Map::<u64, CityStats>::empty(), a) =~= a);
}

/// Merging tables is associative, names included.
pub proof fn lemma_merge_tables_associative(a: Table, b: Table, c: Table)
    ensures
        merge_tables(merge_tables(a, b), c) == merge_tables(a, merge_tables(b, c)),
{
    let left = merge_tables(merge_tables(a, b), c);
    let right = merge_tables(a, merge_tables(b, c));
    assert forall|k: u64| #[trigger] left.contains_key(k) implies left[k] == right[k] by {
        if a.contains_key(k) && b.contains_key(k) && c.contains_key(k) {
            crate::city_data::lemma_merge_associative(a[k], b[k], c[k]);
        }
    }
    assert(left =~= right);
}

/// Merging tables is commutative: both orders hold the same cities with the
/// same numbers, and the same names wherever the two sides agree on the name
/// of each city they share.
pub proof fn lemma_merge_tables_commutative(a: Table, b: Table)
    requires
        table_wf(a),
        table_wf(b),
    ensures
        merge_tables(a, b).dom() == merge_tables(b, a).dom(),
        forall|k: u64| #[trigger]
            merge_tables(a, b).contains_key(k) ==> crate::city_data::same_numbers(
                merge_tables(a, b)[k],
                merge_tables(b, a)[k],
            ),
        (forall|k: u64| #[trigger]
            a.contains_key(k) && b.contains_key(k) ==> a[k].name == b[k].name) ==> merge_tables(
            a,
            b,
        ) == merge_tables(b, a),
{
    let ab = merge_tables(a, b);
    let ba = merge_tables(b, a);
    assert(ab.dom() =~= ba.dom());
    assert forall|k: u64| #[trigger] ab.contains_key(k) implies crate::city_data::same_numbers(
        ab[k],
        ba[k],
    ) by {
        if a.contains_key(k) && b.contains_key(k) {
            crate::city_data::lemma_merge_commutative(a[k], b[k]);
        }
    }
    if forall|k: u64| #[trigger] a.contains_key(k) && b.contains_key(k) ==> a[k].name == b[k].name {
        assert forall|k: u64| #[trigger] ab.contains_key(k) implies ab[k] == ba[k] by {
            if a.contains_key(k) && b.contains_key(k) {
                crate::city_data::lemma_merge_commutative(a[k], b[k]);
            }
        }
        assert(ab =~= ba);
    }
}

/// The entries of a table as they are stored.
pub type Entries<'a> = Map<u64, CityData<'a>>;

/// The table that stored entries stand for.
pub closed spec fn entries_view<'a>(m: Entries<'a>) -> Table {
    m.map_values(|c: CityData<'a>| c@)
}

/// Stored entries as every table holds them: each with at least one reading,
/// filed under the fingerprint of its name.
pub closed spec fn entries_wf<'a>(m: Entries<'a>) -> bool {
    forall|k: u64| #[trigger]
        m.contains_key(k) ==> m[k].wf() && m[k]@.count >= 1 && k == fingerprint(m[k]@.name)
}

/// Well-formed entries stand for a well-formed table, with counts that fit
/// the machine.
pub proof fn lemma_entries_wf<'a>(m: Entries<'a>)
    requires
        entries_wf(m),
        m.dom().finite(),
    ensures
        table_wf(entries_view(m)),
        forall|k: u64| #[trigger]
            entries_view(m).contains_key(k) ==> entries_view(m)[k].count <= u64::MAX,
{
    let t = entries_view(m);
    assert(t.dom() =~= m.dom());
    assert forall|k: u64| #[trigger] t.contains_key(k) implies stats_wf(t[k]) && t[k].count >= 1
        && k == fingerprint(t[k].name) && t[k].count <= u64::MAX by {
        assert(m.contains_key(k));
        m[k].lemma_wf();
    }
}

/// No entries, with room for `MAX_CITIES` of them.
pub(crate) fn empty_entries<'a>() -> (data: HashMap<u64, CityData<'a>>)
    ensures
        entries_wf(data@),
        entries_view(data@) == Map::<u64, CityStats>::empty(),
{
    let data: HashMap<u64, CityData<'a>> = HashMap::with_capacity(MAX_CITIES);
    assert(entries_view(data@) =~= Map::<u64, CityStats>::empty());
    data
}

/// Takes one record into stored entries.
pub(crate) fn upsert_entry<'a>(data: &mut HashMap<u64, CityData<'a>>, line: DataLine<'a>)
    requires
        entries_wf(old(data)@),
        entries_view(old(data)@).contains_key(line@.key) ==> entries_view(old(data)@)[line@.key].count
            < u64::MAX,
    ensures
        entries_wf(final(data)@),
        entries_view(final(data)@) == upsert(entries_view(old(data)@), line@),
{
    let key = line.key();
    assert(entries_view(data@).dom() =~= data@.dom());
    let mut entry = match data.get(&key) {
        Some(c) => *c,
        None => CityData::new(line.city()),
    };
    entry.add(line.temperature());
    data.insert(key, entry);
    proof {
        assert(entries_view(data@) =~= upsert(entries_view(old(data)@), line@));
    }
}

/// The keys among the first `n` pairs that a walk over stored entries gives.
spec fn keys_walked<'a>(walk: Seq<(&'a u64, &'a CityData<'a>)>, n: int) -> Set<u64> {
    Set::new(|k: u64| exists|i: int| 0 <= i < n && *(#[trigger] walk[i]).0 == k)
}

/// One more pair walked is one more key.
proof fn lemma_keys_walked_step<'a>(walk: Seq<(&'a u64, &'a CityData<'a>)>, n: int)
    requires
        0 <= n < walk.len(),
    ensures
        keys_walked(walk, n + 1) == keys_walked(walk, n).insert(*walk[n].0),
{
    let now = keys_walked(walk, n + 1);
    let then = keys_walked(walk, n).insert(*walk[n].0);
    assert forall|k: u64| now.contains(k) <==> then.contains(k) by {
        if now.contains(k) {
            let i = choose|i: int| 0 <= i < n + 1 && *(#[trigger] walk[i]).0 == k;
            if i < n {
                assert(keys_walked(walk, n).contains(k));
            }
        }
        if keys_walked(walk, n).contains(k) {
            let i = choose|i: int| 0 <= i < n && *(#[trigger] walk[i]).0 == k;
            assert(0 <= i < n + 1 && *walk[i].0 == k);
        }
        if k == *walk[n].0 {
            assert(0 <= n < n + 1 && *walk[n].0 == k);
        }
    }
    assert(now =~= then);
}

/// Storing an entry stores its statistics.
proof fn lemma_entries_view_insert<'a>(m: Entries<'a>, k: u64, c: CityData<'a>)
    ensures
        entries_view(m.insert(k, c)) == entries_view(m).insert(k, c@),
        entries_view(m).dom() == m.dom(),
        m.contains_key(k) ==> entries_view(m)[k] == m[k]@,
{
    assert(entries_view(m.insert(k, c)) =~= entries_view(m).insert(k, c@));
    assert(entries_view(m).dom() =~= m.dom());
}

/// Merging in one more city of `b` touches that city alone.
proof fn lemma_merge_one_more(a: Table, b: Table, done: Set<u64>, k: u64)
    requires
        b.contains_key(k),
        !done.contains(k),
    ensures
        merge_tables(a, b.restrict(done.insert(k))) == merge_tables(a, b.restrict(done)).insert(
            k,
            if a.contains_key(k) {
                merge_stats(a[k], b[k])
            } else {
                b[k]
            },
        ),
        merge_tables(a, b.restrict(done)).contains_key(k) == a.contains_key(k),
        a.contains_key(k) ==> merge_tables(a, b.restrict(done))[k] == a[k],
{
    assert(merge_tables(a, b.restrict(done.insert(k))) =~= merge_tables(
        a,
        b.restrict(done),
    ).insert(
        k,
        if a.contains_key(k) {
            merge_stats(a[k], b[k])
        } else {
            b[k]
        },
    ));
}

/// Takes the entries of `other` into `data`.
pub(crate) fn merge_entries<'a>(
    data: &mut HashMap<u64, CityData<'a>>,
    other: &HashMap<u64, CityData<'a>>,
)
    requires
        entries_wf(old(data)@),
        entries_wf(other@),
        mergeable(entries_view(old(data)@), entries_view(other@)),
    ensures
        entries_wf(final(data)@),
        entries_view(final(data)@) == merge_tables(
            entries_view(old(data)@),
            entries_view(other@),
        ),
{
    let ghost ours = entries_view(data@);
    let ghost theirs = entries_view(other@);
    let ghost walk = spec_hash_map_iter(other).remaining();
    let ghost mut n: int = 0;
    proof {
        assert(theirs.restrict(keys_walked(walk, 0)) =~= Map::<u64, CityStats>::empty());
        assert(ours =~= merge_tables(ours, Map::<u64, CityStats>::empty()));
    }
    for pair in it: other.iter()
        invariant
            entries_wf(data@),
            entries_wf(other@),
            theirs == entries_view(other@),
            mergeable(ours, theirs),
            it.seq() == walk,
            walk == spec_hash_map_iter(other).remaining(),
            walk.no_duplicates(),
            n == it.index(),
            entries_view(data@) == merge_tables(ours, theirs.restrict(keys_walked(walk, n))),
    {
        let (key, their_entry) = pair;
        let ghost done = keys_walked(walk, n);
        let ghost stored = data@;
        proof {
            assert(walk[n] == (key, their_entry));
            assert(other@.contains_key(*key) && other@[*key] == *their_entry);
            if done.contains(*key) {
                let i = choose|i: int| 0 <= i < n && *(#[trigger] walk[i]).0 == *key;
                assert(other@.contains_key(*walk[i].0) && other@[*walk[i].0] == *walk[i].1);
                assert(walk[i] == walk[n]);
            }
            lemma_entries_view_insert(other@, *key, *their_entry);
            lemma_entries_view_insert(stored, *key, *their_entry);
            lemma_merge_one_more(ours, theirs, done, *key);
            lemma_keys_walked_step(walk, n);
        }
        let merged = match data.get(key) {
            Some(our_entry) => {
                let mut entry = *our_entry;
                proof {
                    assert(stored.contains_key(*key) && stored[*key] == *our_entry);
                    assert(ours.contains_key(*key) && ours[*key] == our_entry@);
                    assert(theirs.contains_key(*key) && theirs[*key] == their_entry@);
                }
                entry.merge(their_entry);
                entry
            },
            None => {
                proof {
                    assert(!ours.contains_key(*key));
                }
                *their_entry
            },
        };
        data.insert(*key, merged);
        proof {
            lemma_entries_view_insert(stored, *key, merged);
            n = n + 1;
        }
    }
    proof {
        assert(n == walk.len());
        let done = keys_walked(walk, n);
        assert forall|k: u64| theirs.contains_key(k) implies done.contains(k) by {
            lemma_entries_view_insert(other@, k, other@[k]);
            assert(other@.contains_key(k));
            let i = choose|i: int| 0 <= i < walk.len() && walk[i] == (&k, &other@[k]);
            assert(*walk[i].0 == k);
        }
        assert(theirs.restrict(done) =~= theirs);
    }
}

/// Whether the entries of `other` can be taken into `data` without a count
/// leaving the range of `u64`.
pub(crate) fn entries_mergeable<'a>(
    data: &HashMap<u64, CityData<'a>>,
    other: &HashMap<u64, CityData<'a>>,
) -> (fits: bool)
    requires
        entries_wf(data@),
        entries_wf(other@),
    ensures
        fits == mergeable(entries_view(data@), entries_view(other@)),
{
    let ghost ours = entries_view(data@);
    let ghost theirs = entries_view(other@);
    let ghost walk = spec_hash_map_iter(other).remaining();
    let ghost mut n: int = 0;
    for pair in it: other.iter()
        invariant
            ours == entries_view(data@),
            theirs == entries_view(other@),
            it.seq() == walk,
            walk == spec_hash_map_iter(other).remaining(),
            n == it.index(),
            forall|i: int|
                0 <= i < n && ours.contains_key(*(#[trigger] walk[i]).0) ==> ours[*walk[i].0].count
                    + theirs[*walk[i].0].count <= u64::MAX,
    {
        let (key, their_entry) = pair;
        proof {
            assert(walk[n] == (key, their_entry));
            assert(other@.contains_key(*key) && other@[*key] == *their_entry);
            lemma_entries_view_insert(other@, *key, *their_entry);
            lemma_entries_view_insert(data@, *key, *their_entry);
        }
        match data.get(key) {
            Some(our_entry) => {
                proof {
                    assert(data@.contains_key(*key) && data@[*key] == *our_entry);
                }
                if our_entry.count() > u64::MAX - their_entry.count() {
                    return false;
                }
            },
            None => {},
        }
        proof {
            n = n + 1;
        }
    }
    proof {
        assert(n == walk.len());
        assert forall|k: u64| #[trigger] ours.contains_key(k) && theirs.contains_key(k) implies ours[k].count
            + theirs[k].count <= u64::MAX by {
            lemma_entries_view_insert(other@, k, other@[k]);
            assert(other@.contains_key(k));
            let i = choose|i: int| 0 <= i < walk.len() && walk[i] == (&k, &other@[k]);
            assert(*walk[i].0 == k);
        }
    }
    true
}

/// The table of all cities seen so far.
///
/// A city is found by the fingerprint of its name alone. Two names with the
/// same fingerprint are therefore taken for one city, which keeps the name
/// that was seen first.
pub struct CitiesMap<'a> {
    data: HashMap<u64, CityData<'a>>,
}

impl<'a> View for CitiesMap<'a> {
    type V = Table;

    closed spec fn view(&self) -> Table {
        entries_view(self.data@)
    }
}

impl<'a> CitiesMap<'a> {
    /// Every table is well formed.
    #[verifier::type_invariant]
    pub closed spec fn wf(self) -> bool {
        entries_wf(self.data@)
    }

    /// What `wf` says, for those who hold a table only in a proof.
    pub proof fn lemma_wf(self)
        requires
            self.wf(),
        ensures
            table_wf(self@),
            forall|k: u64| #[trigger] self@.contains_key(k) ==> self@[k].count <= u64::MAX,
    {
        lemma_entries_wf(self.data@);
    }

    /// The table that holds the entries `data`.
    pub(crate) fn from_entries(data: HashMap<u64, CityData<'a>>) -> (table: CitiesMap<'a>)
        requires
            entries_wf(data@),
        ensures
            table@ == entries_view(data@),
            table.wf(),
    {
        CitiesMap { data }
    }

    /// An empty table, with room for `MAX_CITIES` cities.
    pub fn new() -> (table: CitiesMap<'a>)
        ensures
            table@ == Map::<u64, CityStats>::empty(),
            table.wf(),
    {
        CitiesMap { data: empty_entries() }
    }

    /// The number of cities.
    pub fn len(&self) -> (n: usize)
        ensures
            n == self@.dom().len(),
    {
        assert(self@.dom() =~= self.data@.dom());
        self.data.len()
    }

    /// The statistics filed under `key`, if any.
    pub fn get(&self, key: u64) -> (found: Option<CityData<'a>>)
        ensures
            found is Some == self@.contains_key(key),
            found matches Some(c) ==> c@ == self@[key],
    {
        assert(self@.dom() =~= self.data@.dom());
        match self.data.get(&key) {
            Some(c) => Some(*c),
            None => None,
        }
    }

    /// The cities of the table, each once, in no particular order.
    pub fn iter(&self) -> (entries: Vec<CityData<'a>>)
        ensures
            lists_table(stats_of(entries@), self@),
    {
        proof {
            use_type_invariant(self);
        }
        let ghost walk = spec_hash_map_iter(&self.data).remaining();
        let ghost mut n: int = 0;
        let mut entries: Vec<CityData<'a>> = Vec::with_capacity(self.data.len());
        for pair in it: self.data.iter()
            invariant
                it.seq() == walk,
                n == it.index(),
                entries@.len() == n,
                forall|i: int| 0 <= i < n ==> entries@[i] == *(#[trigger] walk[i]).1,
        {
            let (_, entry) = pair;
            entries.push(*entry);
            proof {
                n = n + 1;
            }
        }
        proof {
            let listed = stats_of(entries@);
            let stored = self.data@;
            assert(n == walk.len());
            assert(self@.dom() =~= stored.dom());
            assert forall|i: int| 0 <= i < listed.len() implies self@.contains_key(
                fingerprint(#[trigger] listed[i].name),
            ) && self@[fingerprint(listed[i].name)] == listed[i] && fingerprint(listed[i].name)
                == *walk[i].0 by {
                assert(stored.contains_key(*walk[i].0) && stored[*walk[i].0] == *walk[i].1);
            }
            assert forall|i: int, j: int| 0 <= i < j < listed.len() implies fingerprint(
                #[trigger] listed[i].name,
            ) != fingerprint(#[trigger] listed[j].name) by {
                assert(stored.contains_key(*walk[i].0) && stored[*walk[i].0] == *walk[i].1);
                assert(stored.contains_key(*walk[j].0) && stored[*walk[j].0] == *walk[j].1);
                if *walk[i].0 == *walk[j].0 {
                    assert(walk[i] == walk[j]);
                }
            }
        }
        entries
    }

    /// Takes one record into the table.
    pub fn add(&mut self, line: DataLine<'a>)
        requires
            old(self)@.contains_key(line@.key) ==> old(self)@[line@.key].count < u64::MAX,
        ensures
            final(self)@ == upsert(old(self)@, line@),
            final(self).wf(),
    {
        proof {
            use_type_invariant(&*self);
        }
        let mut data: HashMap<u64, CityData<'a>> = HashMap::new();
        core::mem::swap(&mut self.data, &mut data);
        upsert_entry(&mut data, line);
        self.data = data;
    }

    /// Whether `merge` can take `other` into the table: whether every count
    /// stays within `u64`.
    pub fn can_merge(&self, other: &CitiesMap<'a>) -> (fits: bool)
        ensures
            fits == mergeable(self@, other@),
    {
        proof {
            use_type_invariant(self);
            use_type_invariant(other);
        }
        entries_mergeable(&self.data, &other.data)
    }

    /// Takes every city of `other` into the table.
    pub fn merge(&mut self, other: &CitiesMap<'a>)
        requires
            mergeable(old(self)@, other@),
        ensures
            final(self)@ == merge_tables(old(self)@, other@),
            final(self).wf(),
    {
        proof {
            use_type_invariant(&*self);
            use_type_invariant(other);
        }
        let mut data: HashMap<u64, CityData<'a>> = HashMap::new();
        core::mem::swap(&mut self.data, &mut data);
        merge_entries(&mut data, &other.data);
        self.data = data;
    }
}

} // verus!
