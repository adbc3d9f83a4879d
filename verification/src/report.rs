//! The report: every station in lexicographic order of its name, each as
//! `name=min/mean/max` with one digit after the decimal point.

use vstd::prelude::*;
use crate::text::CLOSE_BRACE;
use crate::text::COMMA;
use crate::text::EQUALS;
use crate::text::LINE_FEED;
use crate::text::OPEN_BRACE;
use crate::text::SLASH;
use crate::text::SPACE;
use crate::tenths::round_nearest;
use crate::tenths::tenth_units;
use crate::tenths::round_up;
use crate::tenths::mean_text;
use crate::tenths::value_text;
use crate::tenths::write_tenths;
use crate::table::Accumulator;
use crate::table::StationStats;
use crate::table::Table;
use crate::text::append_bytes;
use crate::text::comes_before;
use crate::text::lemma_precedes_asymmetric;
use crate::text::lemma_precedes_total;
use crate::text::lemma_precedes_transitive;
use crate::text::precedes;

verus! {

/// Each name comes strictly before all later ones.
pub open spec fn strictly_increasing(names: Seq<Seq<u8>>) -> bool {
    forall|i: int, j: int| 0 <= i < j < names.len() ==> precedes(names[i], names[j])
}

/// `names` holds exactly the members of `set`, in strictly increasing order.
pub open spec fn lists(names: Seq<Seq<u8>>, set: Set<Seq<u8>>) -> bool {
    &&& strictly_increasing(names)
    &&& forall|name: Seq<u8>| set.contains(name) <==> names.contains(name)
}

/// The members of `set` in strictly increasing order.
pub open spec fn sorted_names(set: Set<Seq<u8>>) -> Seq<Seq<u8>> {
    choose|names: Seq<Seq<u8>>| lists(names, set)
}

/// A strictly increasing sequence holds no name twice.
pub proof fn lemma_increasing_is_distinct(names: Seq<Seq<u8>>)
    requires
        strictly_increasing(names),
    ensures
        forall|i: int, j: int| 0 <= i < j < names.len() ==> names[i] != names[j],
{
    assert forall|i: int, j: int| 0 <= i < j < names.len() implies names[i] != names[j] by {
        lemma_precedes_asymmetric(names[i], names[j]);
    }
}

/// A set has at most one strictly increasing listing.
pub proof fn lemma_listing_is_unique(a: Seq<Seq<u8>>, b: Seq<Seq<u8>>, set: Set<Seq<u8>>)
    requires
        lists(a, set),
        lists(b, set),
    ensures
        a == b,
    decreases a.len(),
{
    if a.len() == 0 {
        if b.len() > 0 {
            assert(b.contains(b[0]));
            assert(a.contains(b[0]));
        }
        assert(a =~= b);
    } else if b.len() == 0 {
        assert(a.contains(a[0]));
        assert(b.contains(a[0]));
    } else {
        let x = a.last();
        let y = b.last();
        assert(a.contains(x));
        assert(b.contains(y));
        if x != y {
            assert(b.contains(x));
            let j = b.index_of(x);
            assert(precedes(b[j], y));
            assert(a.contains(y));
            let i = a.index_of(y);
            assert(precedes(a[i], x));
            lemma_precedes_asymmetric(x, y);
        }
        let a0 = a.drop_last();
        let b0 = b.drop_last();
        let rest = set.remove(x);
        lemma_increasing_is_distinct(a);
        lemma_increasing_is_distinct(b);
        assert forall|name: Seq<u8>| rest.contains(name) <==> a0.contains(name) by {
            if rest.contains(name) {
                assert(a.contains(name));
                let i = a.index_of(name);
                assert(a0[i] == name);
            }
            if a0.contains(name) {
                let i = a0.index_of(name);
                assert(a[i] == name);
            }
        }
        assert forall|name: Seq<u8>| rest.contains(name) <==> b0.contains(name) by {
            if rest.contains(name) {
                assert(b.contains(name));
                let i = b.index_of(name);
                assert(b0[i] == name);
            }
            if b0.contains(name) {
                let i = b0.index_of(name);
                assert(b[i] == name);
            }
        }
        lemma_listing_is_unique(a0, b0, rest);
        assert(a =~= a0.push(x));
        assert(b =~= b0.push(y));
    }
}

/// A strictly increasing sequence with `name` put in at its place.
pub open spec fn inserted(names: Seq<Seq<u8>>, name: Seq<u8>) -> Seq<Seq<u8>>
    decreases names.len(),
{
    if names.len() == 0 || precedes(names.last(), name) {
        names.push(name)
    } else {
        inserted(names.drop_last(), name).push(names.last())
    }
}

/// Putting a new name into the listing of a set gives the listing of the
/// set with that name added.
pub proof fn lemma_inserted_lists(names: Seq<Seq<u8>>, set: Set<Seq<u8>>, name: Seq<u8>)
    requires
        lists(names, set),
        !set.contains(name),
    ensures
        lists(inserted(names, name), set.insert(name)),
    decreases names.len(),
{
    let grown = inserted(names, name);
    if names.len() == 0 || precedes(names.last(), name) {
        assert forall|i: int, j: int| 0 <= i < j < grown.len() implies precedes(
            grown[i],
            grown[j],
        ) by {
            if j == names.len() && i < names.len() - 1 {
                lemma_precedes_transitive(names[i], names.last(), name);
            }
        }
        assert forall|k: Seq<u8>| set.insert(name).contains(k) <==> grown.contains(k) by {
            if names.contains(k) {
                let i = names.index_of(k);
                assert(grown[i] == k);
            }
            if k == name {
                assert(grown[names.len() as int] == k);
            }
            if grown.contains(k) {
                let i = grown.index_of(k);
                if i < names.len() {
                    assert(names[i] == k);
                }
            }
        }
    } else {
        let last = names.last();
        let front = names.drop_last();
        let rest = set.remove(last);
        assert(names.contains(last));
        lemma_precedes_total(last, name);
        lemma_increasing_is_distinct(names);
        assert forall|k: Seq<u8>| rest.contains(k) <==> front.contains(k) by {
            if rest.contains(k) {
                assert(names.contains(k));
                let i = names.index_of(k);
                assert(front[i] == k);
            }
            if front.contains(k) {
                let i = front.index_of(k);
                assert(names[i] == k);
            }
        }
        lemma_inserted_lists(front, rest, name);
        let inner = inserted(front, name);
        assert forall|i: int, j: int| 0 <= i < j < grown.len() implies precedes(
            grown[i],
            grown[j],
        ) by {
            if j == inner.len() {
                assert(inner.contains(inner[i]));
                if inner[i] != name {
                    assert(rest.contains(inner[i]));
                    assert(front.contains(inner[i]));
                    let at = front.index_of(inner[i]);
                    assert(precedes(names[at], names[names.len() - 1]));
                }
            } else {
                assert(precedes(inner[i], inner[j]));
            }
        }
        assert forall|k: Seq<u8>| set.insert(name).contains(k) <==> grown.contains(k) by {
            if inner.contains(k) {
                let i = inner.index_of(k);
                assert(grown[i] == k);
            }
            if k == last {
                assert(grown[inner.len() as int] == k);
            }
            if grown.contains(k) {
                let i = grown.index_of(k);
                if i < inner.len() {
                    assert(inner[i] == k);
                    assert(inner.contains(k));
                }
            }
        }
    }
}

/// The names of a finite set are listed by `sorted_names`: strictly
/// increasing, so without repetition, and with no name left out or added.
pub proof fn lemma_sorted_names_lists(set: Set<Seq<u8>>)
    requires
        set.finite(),
    ensures
        lists(sorted_names(set), set),
    decreases set.len(),
{
    if set.len() == 0 {
        set.lemma_len0_is_empty();
        let none = Seq::<Seq<u8>>::empty();
        assert(lists(none, set));
    } else {
        let name = set.choose();
        let rest = set.remove(name);
        lemma_sorted_names_lists(rest);
        lemma_inserted_lists(sorted_names(rest), rest, name);
        assert(rest.insert(name) =~= set);
        assert(lists(inserted(sorted_names(rest), name), set));
    }
}

/// The names of a table picked out by a sequence of places in its listing.
pub open spec fn names_at(table: Table, places: Seq<usize>) -> Seq<Seq<u8>> {
    Seq::new(places.len(), |k: int| table.names()[places[k] as int])
}

/// The places of the table's listing, ordered by station name.
///
/// Every place occurs once, and the names read off in the returned order
/// are strictly increasing: they are the sorted names of the table.
pub fn sorted_places(table: &Table) -> (places: Vec<usize>)
    requires
        table.well_formed(),
    ensures
        places@.len() == table.names().len(),
        forall|k: int| 0 <= k < places@.len() ==> places@[k] < table.names().len(),
        lists(names_at(*table, places@), table@.dom()),
        names_at(*table, places@) == sorted_names(table@.dom()),
{
    let n: usize = table.len();
    let mut places: Vec<usize> = Vec::new();
    let mut i: usize = 0;
    proof {
        table.lemma_listing();
    }
    while i < n
        invariant
            table.well_formed(),
            n == table.names().len(),
            i <= n,
            places@.len() == i,
            forall|k: int| 0 <= k < places@.len() ==> places@[k] < i,
            forall|j: usize| j < i ==> places@.contains(j),
            strictly_increasing(names_at(*table, places@)),
            forall|a: int, b: int|
                0 <= a < b < table.names().len() ==> table.names()[a] != table.names()[b],
        decreases n - i,
    {
        let name = table.name_at(i);
        let ghost sorted = names_at(*table, places@);
        let mut lo: usize = 0;
        let mut hi: usize = places.len();
        while lo < hi
            invariant
                table.well_formed(),
                n == table.names().len(),
                i < n,
                name@ == table.names()[i as int],
                lo <= hi <= places@.len(),
                places@.len() == i,
                sorted == names_at(*table, places@),
                forall|k: int| 0 <= k < places@.len() ==> places@[k] < i,
                strictly_increasing(sorted),
                forall|k: int| 0 <= k < lo ==> precedes(sorted[k], name@),
                forall|k: int| hi <= k < sorted.len() ==> precedes(name@, sorted[k]),
                forall|a: int, b: int|
                    0 <= a < b < table.names().len() ==> table.names()[a] != table.names()[b],
            decreases hi - lo,
        {
            let mid: usize = lo + (hi - lo) / 2;
            let at: usize = places[mid];
            assert(sorted[mid as int] == table.names()[at as int]);
            if comes_before(table.name_at(at), name) {
                proof {
                    assert forall|k: int| 0 <= k < mid + 1 implies precedes(sorted[k], name@) by {
                        if k < mid {
                            lemma_precedes_transitive(sorted[k], sorted[mid as int], name@);
                        }
                    }
                }
                lo = mid + 1;
            } else {
                proof {
                    lemma_precedes_total(sorted[mid as int], name@);
                    assert forall|k: int| mid <= k < sorted.len() implies precedes(
                        name@,
                        sorted[k],
                    ) by {
                        if mid < k {
                            lemma_precedes_transitive(name@, sorted[mid as int], sorted[k]);
                        }
                    }
                }
                hi = mid;
            }
        }
        let ghost before = places@;
        places.insert(lo, i);
        proof {
            let after = names_at(*table, places@);
            assert(after =~= sorted.insert(lo as int, name@));
            assert forall|a: int, b: int| 0 <= a < b < after.len() implies precedes(
                after[a],
                after[b],
            ) by {
                if b < lo {
                    assert(precedes(sorted[a], sorted[b]));
                } else if b == lo {
                    assert(precedes(sorted[a], name@));
                } else if a < lo {
                    assert(precedes(sorted[a], sorted[b - 1]));
                } else if a == lo {
                    assert(precedes(name@, sorted[b - 1]));
                } else {
                    assert(precedes(sorted[a - 1], sorted[b - 1]));
                }
            }
            assert forall|j: usize| j < i + 1 implies places@.contains(j) by {
                if j < i {
                    assert(before.contains(j));
                    let k = before.index_of(j);
                    if k < lo {
                        assert(places@[k] == j);
                    } else {
                        assert(places@[k + 1] == j);
                    }
                } else {
                    assert(places@[lo as int] == j);
                }
            }
        }
        i += 1;
    }
    proof {
        let sorted = names_at(*table, places@);
        assert forall|name: Seq<u8>| table@.dom().contains(name) <==> sorted.contains(name) by {
            if table@.dom().contains(name) {
                assert(table.names().contains(name));
                let j = table.names().index_of(name);
                assert(places@.contains(j as usize));
                let k = places@.index_of(j as usize);
                assert(sorted[k] == name);
            }
            if sorted.contains(name) {
                let k = sorted.index_of(name);
                assert(table.names()[places@[k] as int] == name);
            }
        }
        assert(lists(sorted, table@.dom()));
        lemma_listing_is_unique(sorted, sorted_names(table@.dom()), table@.dom());
    }
    places
}

/// One station of the report: its name, `=`, then the least value, the
/// mean and the greatest value, separated by `/`. The least and greatest
/// value are rounded to the nearest tenth; the mean is rounded up.
pub open spec fn entry_text(name: Seq<u8>, stats: Accumulator, tenth: nat) -> Seq<u8> {
    name + seq![EQUALS] + value_text(stats.min, tenth) + seq![SLASH] + mean_text(
        stats.sum,
        stats.count as int,
        tenth as int,
    ) + seq![SLASH] + value_text(stats.max, tenth)
}

/// The entries of the named stations, in the given order, separated by a
/// comma and a space.
pub open spec fn entries_text(
    names: Seq<Seq<u8>>,
    stations: Map<Seq<u8>, Accumulator>,
    tenth: nat,
) -> Seq<u8>
    decreases names.len(),
{
    if names.len() == 0 {
        Seq::<u8>::empty()
    } else {
        let separator = if names.len() == 1 {
            Seq::<u8>::empty()
        } else {
            seq![COMMA, SPACE]
        };
        entries_text(names.drop_last(), stations, tenth) + separator + entry_text(
            names.last(),
            stations[names.last()],
            tenth,
        )
    }
}

/// The report of a set of stations whose values are counted at `scale`:
/// their entries in strictly increasing order of name, within braces,
/// followed by one line feed.
pub open spec fn report(stations: Map<Seq<u8>, Accumulator>, scale: nat) -> Seq<u8> {
    seq![OPEN_BRACE] + entries_text(sorted_names(stations.dom()), stations, tenth_units(scale))
        + seq![CLOSE_BRACE, LINE_FEED]
}

/// Appends the entry of one station to `out`.
pub fn write_entry(out: &mut Vec<u8>, name: &[u8], stats: &StationStats, scale: usize)
    requires
        scale >= 1,
        stats.well_formed(scale as nat),
    ensures
        final(out)@ == old(out)@ + entry_text(name@, stats@, tenth_units(scale as nat)),
{
    append_bytes(out, name);
    out.push(EQUALS);
    write_tenths(out, &round_nearest(&stats.min, scale));
    out.push(SLASH);
    write_tenths(
        out,
        &round_up(stats.gains.as_slice(), stats.losses.as_slice(), stats.count, scale),
    );
    out.push(SLASH);
    write_tenths(out, &round_nearest(&stats.max, scale));
}

/// Renders the table as one line: `{name=min/mean/max, ...}` with the
/// stations in strictly increasing order of name, and `{}` for an empty
/// table, followed by a line feed.
pub fn render(table: &Table) -> (out: Vec<u8>)
    requires
        table.well_formed(),
    ensures
        out@ == report(table@, table.scale()),
        lists(sorted_names(table@.dom()), table@.dom()),
{
    let scale: usize = table.scale_of();
    let places = sorted_places(table);
    let ghost sorted = names_at(*table, places@);
    let mut out: Vec<u8> = Vec::new();
    out.push(OPEN_BRACE);
    let mut k: usize = 0;
    proof {
        table.lemma_listing();
    }
    while k < places.len()
        invariant
            table.well_formed(),
            k <= places@.len(),
            places@.len() == table.names().len(),
            forall|j: int| 0 <= j < places@.len() ==> places@[j] < table.names().len(),
            sorted == names_at(*table, places@),
            scale == table.scale(),
            scale >= 1,
            out@ == seq![OPEN_BRACE] + entries_text(
                sorted.take(k as int),
                table@,
                tenth_units(scale as nat),
            ),
        decreases places@.len() - k,
    {
        let at: usize = places[k];
        if k > 0 {
            out.push(COMMA);
            out.push(SPACE);
        }
        proof {
            table.lemma_listing();
        }
        write_entry(&mut out, table.name_at(at), table.stats_at(at), scale);
        proof {
            let shown = sorted.take(k as int + 1);
            assert(shown.drop_last() =~= sorted.take(k as int));
            assert(shown.last() == table.names()[at as int]);
            assert(table@[shown.last()] == table.accumulators()[at as int]@);
            assert(out@ =~= seq![OPEN_BRACE] + entries_text(shown, table@, tenth_units(scale as nat)));
        }
        k += 1;
    }
    out.push(CLOSE_BRACE);
    out.push(LINE_FEED);
    proof {
        assert(sorted.take(k as int) =~= sorted);
    }
    out
}

} // verus!
