//! The result as it is shown: the cities in ascending order of their names,
//! as `{name=min/mean/max, ...}`.

use crate::cities_map::{lists_table, stats_of, CitiesMap, Table};
use crate::city_data::{display_stats, CityData, CityStats};
use crate::fnv::fingerprint;
use vstd::prelude::*;

verus! {

/// ASCII `{`, which opens the result.
pub const OPEN: u8 = 123;

/// ASCII `}`, which closes the result.
pub const CLOSE: u8 = 125;

/// ASCII `,`, which with a space parts two entries.
pub const COMMA: u8 = 44;

/// ASCII space.
pub const SPACE: u8 = 32;

/// `a` comes no later than `b` in the order of names: byte by byte, a
/// smaller byte first, and a name before every longer name that starts
/// with it.
pub open spec fn name_le(a: Seq<u8>, b: Seq<u8>) -> bool
    decreases a.len(),
{
    if a.len() == 0 {
        true
    } else if b.len() == 0 {
        false
    } else if a[0] != b[0] {
        a[0] < b[0]
    } else {
        name_le(a.drop_first(), b.drop_first())
    }
}

/// The entries stand in ascending order of their names.
pub open spec fn sorted_by_name(entries: Seq<CityStats>) -> bool {
    forall|i: int, j: int|
        0 <= i < j < entries.len() ==> name_le(
            (#[trigger] entries[i]).name,
            (#[trigger] entries[j]).name,
        )
}

/// `out` holds the items of `input` in the order that `order` gives: item
/// `i` of `out` is item `order[i]` of `input`, and no item is taken twice.
pub open spec fn rearranged<T>(out: Seq<T>, input: Seq<T>, order: Seq<int>) -> bool {
    &&& out.len() == input.len()
    &&& order.len() == input.len()
    &&& forall|i: int|
        0 <= i < order.len() ==> 0 <= #[trigger] order[i] < input.len() && out[i] == input[order[i]]
    &&& forall|i: int, j: int| 0 <= i < j < order.len() ==> #[trigger] order[i] != #[trigger] order[j]
}

/// `out` holds the items of `input`, each as often as `input` does.
pub open spec fn permutation_of<T>(out: Seq<T>, input: Seq<T>) -> bool {
    exists|order: Seq<int>| rearranged(out, input, order)
}

/// The entries put one after the other, with `, ` between two of them.
pub open spec fn render_entries(entries: Seq<CityStats>) -> Seq<u8>
    decreases entries.len(),
{
    if entries.len() == 0 {
        Seq::empty()
    } else if entries.len() == 1 {
        display_stats(entries[0])
    } else {
        render_entries(entries.drop_last()) + seq![COMMA, SPACE] + display_stats(entries.last())
    }
}

/// The cities of a table, each once, in ascending order of the names.
pub open spec fn sorted_listing(t: Table) -> Seq<CityStats> {
    choose|listing: Seq<CityStats>| lists_table(listing, t) && sorted_by_name(listing)
}

/// The result line: the entries between braces.
pub open spec fn render(entries: Seq<CityStats>) -> Seq<u8> {
    seq![OPEN] + render_entries(entries) + seq![CLOSE]
}

/// Of two names, one comes no later than the other.
pub proof fn lemma_name_le_total(a: Seq<u8>, b: Seq<u8>)
    ensures
        name_le(a, b) || name_le(b, a),
    decreases a.len(),
{
    if a.len() > 0 && b.len() > 0 && a[0] == b[0] {
        lemma_name_le_total(a.drop_first(), b.drop_first());
    }
}

/// The order of names is transitive.
pub proof fn lemma_name_le_transitive(a: Seq<u8>, b: Seq<u8>, c: Seq<u8>)
    requires
        name_le(a, b),
        name_le(b, c),
    ensures
        name_le(a, c),
    decreases a.len(),
{
    if a.len() > 0 && b.len() > 0 && c.len() > 0 && a[0] == b[0] && b[0] == c[0] {
        lemma_name_le_transitive(a.drop_first(), b.drop_first(), c.drop_first());
    }
}

/// Two names that each come no later than the other are the same name.
pub proof fn lemma_name_le_antisymmetric(a: Seq<u8>, b: Seq<u8>)
    requires
        name_le(a, b),
        name_le(b, a),
    ensures
        a == b,
    decreases a.len(),
{
    if a.len() > 0 && b.len() > 0 {
        lemma_name_le_antisymmetric(a.drop_first(), b.drop_first());
        assert(a =~= seq![a[0]] + a.drop_first());
        assert(b =~= seq![b[0]] + b.drop_first());
    } else {
        assert(a =~= b);
    }
}

/// A rearrangement of a listing of a table lists the table too.
pub proof fn lemma_rearranged_lists(
    out: Seq<CityStats>,
    input: Seq<CityStats>,
    order: Seq<int>,
    t: Table,
)
    requires
        rearranged(out, input, order),
        lists_table(input, t),
    ensures
        lists_table(out, t),
{
    assert forall|i: int| 0 <= i < out.len() implies t.contains_key(
        fingerprint(#[trigger] out[i].name),
    ) && t[fingerprint(out[i].name)] == out[i] by {
        assert(out[i] == input[order[i]]);
    }
    assert forall|i: int, j: int| 0 <= i < j < out.len() implies fingerprint(
        #[trigger] out[i].name,
    ) != fingerprint(#[trigger] out[j].name) by {
        let p = order[i];
        let q = order[j];
        assert(out[i] == input[p] && out[j] == input[q]);
        if p < q {
            assert(fingerprint(input[p].name) != fingerprint(input[q].name));
        } else {
            assert(fingerprint(input[q].name) != fingerprint(input[p].name));
        }
    }
}

/// A listing of a table leaves out no city.
pub proof fn lemma_listing_covers(listing: Seq<CityStats>, t: Table)
    requires
        t.dom().finite(),
        lists_table(listing, t),
    ensures
        forall|k: u64| #[trigger]
            t.contains_key(k) ==> exists|i: int|
                0 <= i < listing.len() && fingerprint((#[trigger] listing[i]).name) == k,
{
    let keys = listing.map_values(|s: CityStats| fingerprint(s.name));
    assert forall|i: int, j: int| 0 <= i < keys.len() && 0 <= j < keys.len() && i != j implies keys[i]
        != keys[j] by {
        if i < j {
            assert(fingerprint(listing[i].name) != fingerprint(listing[j].name));
        } else {
            assert(fingerprint(listing[j].name) != fingerprint(listing[i].name));
        }
    }
    keys.unique_seq_to_set();
    assert forall|k: u64| keys.to_set().contains(k) implies t.dom().contains(k) by {
        let i = choose|i: int| 0 <= i < keys.len() && keys[i] == k;
        assert(t.contains_key(fingerprint(listing[i].name)));
    }
    vstd::set_lib::lemma_len_subset(keys.to_set(), t.dom());
    vstd::set_lib::lemma_subset_equality(keys.to_set(), t.dom());
    assert forall|k: u64| #[trigger] t.contains_key(k) implies exists|i: int|
        0 <= i < listing.len() && fingerprint((#[trigger] listing[i]).name) == k by {
        assert(keys.to_set().contains(k));
        let i = choose|i: int| 0 <= i < keys.len() && keys[i] == k;
        assert(fingerprint(listing[i].name) == k);
    }
}

/// A listing without its first entry lists the table without that city.
proof fn lemma_listing_rest(listing: Seq<CityStats>, t: Table)
    requires
        t.dom().finite(),
        lists_table(listing, t),
        listing.len() > 0,
    ensures
        lists_table(listing.drop_first(), t.remove(fingerprint(listing[0].name))),
        sorted_by_name(listing) ==> sorted_by_name(listing.drop_first()),
{
    let key = fingerprint(listing[0].name);
    let rest = listing.drop_first();
    let smaller = t.remove(key);
    assert(t.contains_key(key));
    assert(smaller.dom() =~= t.dom().remove(key));
    assert forall|i: int| 0 <= i < rest.len() implies smaller.contains_key(
        fingerprint(#[trigger] rest[i].name),
    ) && smaller[fingerprint(rest[i].name)] == rest[i] by {
        assert(rest[i] == listing[i + 1]);
        assert(fingerprint(listing[0].name) != fingerprint(listing[i + 1].name));
    }
    assert forall|i: int, j: int| 0 <= i < j < rest.len() implies fingerprint(
        #[trigger] rest[i].name,
    ) != fingerprint(#[trigger] rest[j].name) by {
        assert(rest[i] == listing[i + 1] && rest[j] == listing[j + 1]);
    }
    if sorted_by_name(listing) {
        assert forall|i: int, j: int| 0 <= i < j < rest.len() implies name_le(
            (#[trigger] rest[i]).name,
            (#[trigger] rest[j]).name,
        ) by {
            assert(rest[i] == listing[i + 1] && rest[j] == listing[j + 1]);
        }
    }
}

/// A table has one sorted listing: the cities of a table, each once and in
/// ascending order of the names, can be written down in one way only.
pub proof fn lemma_sorted_listing_unique(a: Seq<CityStats>, b: Seq<CityStats>, t: Table)
    requires
        t.dom().finite(),
        lists_table(a, t),
        lists_table(b, t),
        sorted_by_name(a),
        sorted_by_name(b),
    ensures
        a == b,
    decreases a.len(),
{
    if a.len() == 0 {
        assert(a =~= b);
    } else {
        lemma_listing_covers(a, t);
        lemma_listing_covers(b, t);
        let ka = fingerprint(a[0].name);
        let kb = fingerprint(b[0].name);
        assert(t.contains_key(ka) && t.contains_key(kb));
        let j = choose|j: int| 0 <= j < b.len() && fingerprint((#[trigger] b[j]).name) == ka;
        let i = choose|i: int| 0 <= i < a.len() && fingerprint((#[trigger] a[i]).name) == kb;
        assert(b[j] == a[0]);
        assert(a[i] == b[0]);
        if i > 0 && j > 0 {
            assert(name_le(a[0].name, a[i].name));
            assert(name_le(b[0].name, b[j].name));
            lemma_name_le_antisymmetric(a[0].name, b[0].name);
        }
        assert(a[0] == b[0]);
        lemma_listing_rest(a, t);
        lemma_listing_rest(b, t);
        lemma_sorted_listing_unique(a.drop_first(), b.drop_first(), t.remove(ka));
        assert(a =~= seq![a[0]] + a.drop_first());
        assert(b =~= seq![b[0]] + b.drop_first());
    }
}

/// Whether the name `a` comes no later than the name `b`.
pub fn name_no_later(a: &[u8], b: &[u8]) -> (r: bool)
    ensures
        r == name_le(a@, b@),
{
    let mut i: usize = 0;
    proof {
        assert(a@.skip(0) =~= a@);
        assert(b@.skip(0) =~= b@);
    }
    while i < a.len() && i < b.len() && a[i] == b[i]
        invariant
            i <= a@.len(),
            i <= b@.len(),
            name_le(a@, b@) == name_le(a@.skip(i as int), b@.skip(i as int)),
        decreases a@.len() - i,
    {
        proof {
            assert(a@.skip(i as int).drop_first() =~= a@.skip(i + 1));
            assert(b@.skip(i as int).drop_first() =~= b@.skip(i + 1));
        }
        i += 1;
    }
    if i >= a.len() {
        true
    } else if i >= b.len() {
        false
    } else {
        a[i] < b[i]
    }
}

/// The cities in ascending order of their names.
pub fn sort_by_city<'a>(entries: Vec<CityData<'a>>) -> (sorted: Vec<CityData<'a>>)
    ensures
        sorted_by_name(stats_of(sorted@)),
        permutation_of(sorted@, entries@),
{
    let mut sorted: Vec<CityData<'a>> = Vec::with_capacity(entries.len());
    let ghost mut order: Seq<int> = Seq::empty();
    let mut taken: usize = 0;
    while taken < entries.len()
        invariant
            taken <= entries@.len(),
            sorted@.len() == taken,
            order.len() == taken,
            sorted_by_name(stats_of(sorted@)),
            forall|i: int|
                0 <= i < order.len() ==> 0 <= #[trigger] order[i] < taken && sorted@[i]
                    == entries@[order[i]],
            forall|i: int, j: int|
                0 <= i < j < order.len() ==> #[trigger] order[i] != #[trigger] order[j],
        decreases entries@.len() - taken,
    {
        let entry = entries[taken];
        let mut at: usize = sorted.len();
        while at > 0 && !name_no_later(sorted[at - 1].city(), entry.city())
            invariant
                at <= sorted@.len(),
                forall|j: int|
                    at <= j < sorted@.len() ==> name_le(entry@.name, (#[trigger] sorted@[j])@.name),
            decreases at,
        {
            proof {
                lemma_name_le_total(sorted@[at - 1]@.name, entry@.name);
            }
            at -= 1;
        }
        let ghost before = sorted@;
        let ghost order_before = order;
        sorted.insert(at, entry);
        proof {
            order = order.insert(at as int, taken as int);
            let now = stats_of(sorted@);
            let then = stats_of(before);
            assert forall|i: int, j: int| 0 <= i < j < now.len() implies name_le(
                (#[trigger] now[i]).name,
                (#[trigger] now[j]).name,
            ) by {
                if j < at {
                    assert(now[i] == then[i] && now[j] == then[j]);
                } else if j == at {
                    assert(now[i] == then[i]);
                    assert(name_le(then[at - 1].name, entry@.name));
                    if i < at - 1 {
                        assert(name_le(then[i].name, then[at - 1].name));
                        lemma_name_le_transitive(then[i].name, then[at - 1].name, entry@.name);
                    }
                } else if i < at {
                    assert(now[i] == then[i] && now[j] == then[j - 1]);
                } else if i == at {
                    assert(now[j] == then[j - 1]);
                    assert(before[j - 1]@ == then[j - 1]);
                } else {
                    assert(now[i] == then[i - 1] && now[j] == then[j - 1]);
                }
            }
            assert forall|i: int| 0 <= i < order.len() implies 0 <= #[trigger] order[i] < taken + 1
                && sorted@[i] == entries@[order[i]] by {
                if i < at {
                    assert(order[i] == order_before[i]);
                } else if i > at {
                    assert(order[i] == order_before[i - 1]);
                }
            }
            assert forall|i: int, j: int| 0 <= i < j < order.len() implies #[trigger] order[i]
                != #[trigger] order[j] by {
                let p = if i < at { i } else { i - 1 };
                let q = if j < at { j } else { j - 1 };
                if i != at && j != at {
                    assert(order[i] == order_before[p] && order[j] == order_before[q]);
                } else if i == at {
                    assert(order[j] == order_before[q]);
                } else {
                    assert(order[i] == order_before[p]);
                }
            }
        }
        taken += 1;
    }
    proof {
        assert(rearranged(sorted@, entries@, order));
    }
    sorted
}

/// The result line for `entries`, in the order given.
pub fn format_results<'a>(entries: &[CityData<'a>]) -> (out: Vec<u8>)
    requires
        forall|i: int| 0 <= i < entries@.len() ==> (#[trigger] entries@[i])@.count > 0,
    ensures
        out@ == render(stats_of(entries@)),
{
    let mut out: Vec<u8> = Vec::new();
    out.push(OPEN);
    let ghost all = stats_of(entries@);
    let mut i: usize = 0;
    while i < entries.len()
        invariant
            i <= entries@.len(),
            all == stats_of(entries@),
            forall|j: int| 0 <= j < entries@.len() ==> (#[trigger] entries@[j])@.count > 0,
            out@ == seq![OPEN] + render_entries(all.take(i as int)),
        decreases entries@.len() - i,
    {
        let ghost shown = render_entries(all.take(i as int));
        proof {
            assert(all.take(i + 1).drop_last() =~= all.take(i as int));
            assert(all.take(i + 1).last() == entries@[i as int]@);
        }
        if i > 0 {
            out.push(COMMA);
            out.push(SPACE);
            proof {
                assert(out@ =~= seq![OPEN] + (shown + seq![COMMA, SPACE]));
            }
        }
        entries[i].write_to(&mut out);
        proof {
            let entry = display_stats(entries@[i as int]@);
            if i > 0 {
                assert(out@ =~= seq![OPEN] + (shown + seq![COMMA, SPACE] + entry));
            } else {
                assert(shown =~= Seq::<u8>::empty());
                assert(out@ =~= seq![OPEN] + entry);
            }
        }
        i += 1;
    }
    proof {
        assert(all.take(i as int) =~= all);
    }
    out.push(CLOSE);
    out
}

/// The result line of a table: every city once, in ascending order of the
/// names.
pub fn report<'a>(table: &CitiesMap<'a>) -> (out: Vec<u8>)
    ensures
        out@ == render(sorted_listing(table@)),
        lists_table(sorted_listing(table@), table@),
        sorted_by_name(sorted_listing(table@)),
{
    let entries = table.iter();
    let sorted = sort_by_city(entries);
    proof {
        let order = choose|order: Seq<int>| rearranged(sorted@, entries@, order);
        let listing = stats_of(sorted@);
        assert(rearranged(listing, stats_of(entries@), order));
        lemma_rearranged_lists(listing, stats_of(entries@), order, table@);
        use_type_invariant(table);
        table.lemma_wf();
        assert forall|i: int| 0 <= i < sorted@.len() implies (#[trigger] sorted@[i])@.count
            > 0 by {
            assert(listing[i] == sorted@[i]@);
            assert(table@.contains_key(fingerprint(listing[i].name)));
        }
        lemma_sorted_listing_unique(listing, sorted_listing(table@), table@);
    }
    format_results(sorted.as_slice())
}

} // verus!
