use vstd::prelude::*;
use vstd::seq_lib::*;
use crate::tree::{EntryView, TreeEntry, entry_views};

verus! {

/// Byte-wise lexicographic order on names: `a` comes no later than `b`.
pub open spec fn name_le(a: Seq<u8>, b: Seq<u8>) -> bool
    decreases a.len(),
{
    if a.len() == 0 {
        true
    } else if b.len() == 0 {
        false
    } else if a[0] != b[0] {
        a[0] < b[0]
    } else {
        name_le(a.drop_first(), b.drop_first())
    }
}

/// Whether entries stand in lexicographic order of their names.
pub open spec fn sorted_by_name(es: Seq<EntryView>) -> bool {
    forall|i: int, j: int| 0 <= i < j < es.len() ==> name_le(#[trigger] es[i].name, #[trigger] es[j].name)
}

/// Whether no two entries share a name.
pub open spec fn distinct_names(es: Seq<EntryView>) -> bool {
    forall|i: int, j: int| 0 <= i < j < es.len() ==> #[trigger] es[i].name != #[trigger] es[j].name
}

/// The first index at or after `from` whose entry's name does not come
/// before `name`, or the length where there is none.
pub open spec fn insertion_point(es: Seq<EntryView>, name: Seq<u8>, from: int) -> int
    decreases es.len() - from,
{
    if from < 0 || from >= es.len() {
        es.len() as int
    } else if name_le(name, es[from].name) {
        from
    } else {
        insertion_point(es, name, from + 1)
    }
}

/// The canonical order of a listing: its entries sorted by name.  Entries
/// that share a name keep the order they came in.
pub open spec fn canonical_order(es: Seq<EntryView>) -> Seq<EntryView>
    decreases es.len(),
{
    if es.len() == 0 {
        Seq::empty()
    } else {
        let rest = canonical_order(es.drop_first());
        rest.insert(insertion_point(rest, es.first().name, 0), es.first())
    }
}

/// Every name comes no later than itself.
pub proof fn lemma_name_le_reflexive(a: Seq<u8>)
    ensures
        name_le(a, a),
    decreases a.len(),
{
    if a.len() > 0 {
        lemma_name_le_reflexive(a.drop_first());
    }
}

/// Of two names, one comes no later than the other.
pub proof fn lemma_name_le_total(a: Seq<u8>, b: Seq<u8>)
    ensures
        name_le(a, b) || name_le(b, a),
    decreases a.len(),
{
    if a.len() > 0 && b.len() > 0 && a[0] == b[0] {
        lemma_name_le_total(a.drop_first(), b.drop_first());
    }
}

/// The order on names is transitive.
pub proof fn lemma_name_le_transitive(a: Seq<u8>, b: Seq<u8>, c: Seq<u8>)
    requires
        name_le(a, b),
        name_le(b, c),
    ensures
        name_le(a, c),
    decreases a.len(),
{
    if a.len() > 0 && b.len() > 0 && c.len() > 0 && a[0] == b[0] && b[0] == c[0] {
        lemma_name_le_transitive(a.drop_first(), b.drop_first(), c.drop_first());
    }
}

/// Two names that each come no later than the other are the same name.
pub proof fn lemma_name_le_antisymmetric(a: Seq<u8>, b: Seq<u8>)
    requires
        name_le(a, b),
        name_le(b, a),
    ensures
        a == b,
    decreases a.len(),
{
    if a.len() > 0 && b.len() > 0 {
        lemma_name_le_antisymmetric(a.drop_first(), b.drop_first());
        assert(a =~= seq![a[0]] + a.drop_first());
        assert(b =~= seq![b[0]] + b.drop_first());
    } else {
        assert(a =~= b);
    }
}

/// Where the insertion point lies: every entry before it has a name that
/// comes strictly before `name`, and the entry at it does not.
pub proof fn lemma_insertion_point(es: Seq<EntryView>, name: Seq<u8>, from: int)
    requires
        0 <= from <= es.len(),
    ensures
        from <= insertion_point(es, name, from) <= es.len(),
        forall|k: int| from <= k < insertion_point(es, name, from) ==> !name_le(name, es[k].name),
        insertion_point(es, name, from) < es.len() ==> name_le(
            name,
            es[insertion_point(es, name, from)].name,
        ),
    decreases es.len() - from,
{
    if from < es.len() && !name_le(name, es[from].name) {
        lemma_insertion_point(es, name, from + 1);
    }
}

/// Putting an entry at its insertion point keeps a sorted listing sorted.
pub proof fn lemma_insert_keeps_sorted(es: Seq<EntryView>, e: EntryView)
    requires
        sorted_by_name(es),
    ensures
        sorted_by_name(es.insert(insertion_point(es, e.name, 0), e)),
{
    let at = insertion_point(es, e.name, 0);
    let out = es.insert(at, e);
    lemma_insertion_point(es, e.name, 0);
    assert forall|i: int, j: int| 0 <= i < j < out.len() implies name_le(
        #[trigger] out[i].name,
        #[trigger] out[j].name,
    ) by {
        if j == at {
            assert(out[i] == es[i]);
            lemma_name_le_total(e.name, es[i].name);
        } else if i == at {
            assert(out[j] == es[j - 1]);
            if j - 1 > at {
                assert(name_le(es[at].name, es[j - 1].name));
            } else {
                lemma_name_le_reflexive(es[at].name);
            }
            lemma_name_le_transitive(e.name, es[at].name, es[j - 1].name);
        } else {
            let i0 = if i < at { i } else { i - 1 };
            let j0 = if j < at { j } else { j - 1 };
            assert(out[i] == es[i0] && out[j] == es[j0]);
            assert(name_le(es[i0].name, es[j0].name));
        }
    }
}

/// The canonical order is sorted by name, has the entries of the listing it
/// was made from, each as often as there, and so has the same length.
pub proof fn lemma_canonical_order(es: Seq<EntryView>)
    ensures
        sorted_by_name(canonical_order(es)),
        canonical_order(es).to_multiset() == es.to_multiset(),
        canonical_order(es).len() == es.len(),
    decreases es.len(),
{
    broadcast use vstd::multiset::group_multiset_axioms;

    if es.len() == 0 {
        assert(canonical_order(es) =~= es);
    } else {
        let rest = canonical_order(es.drop_first());
        let at = insertion_point(rest, es.first().name, 0);
        lemma_canonical_order(es.drop_first());
        lemma_insertion_point(rest, es.first().name, 0);
        lemma_insert_keeps_sorted(rest, es.first());
        to_multiset_insert(rest, at, es.first());
        to_multiset_insert(es.drop_first(), 0, es.first());
        assert(es.drop_first().insert(0, es.first()) =~= es);
    }
}

/// An entry of the canonical order is an entry of the listing.
pub proof fn lemma_canonical_order_member(es: Seq<EntryView>, k: int)
    requires
        0 <= k < canonical_order(es).len(),
    ensures
        es.contains(canonical_order(es)[k]),
{
    let out = canonical_order(es);
    lemma_canonical_order(es);
    assert(out.contains(out[k]));
    to_multiset_contains(out, out[k]);
    to_multiset_contains(es, out[k]);
}

/// Where no two entries of a listing share a name, none of its canonical
/// order do.
pub proof fn lemma_canonical_order_distinct(es: Seq<EntryView>)
    requires
        distinct_names(es),
    ensures
        distinct_names(canonical_order(es)),
    decreases es.len(),
{
    if es.len() > 0 {
        let tail = es.drop_first();
        let rest = canonical_order(tail);
        let at = insertion_point(rest, es.first().name, 0);
        let out = rest.insert(at, es.first());
        assert(distinct_names(tail)) by {
            assert forall|i: int, j: int| 0 <= i < j < tail.len() implies #[trigger] tail[i].name
                != #[trigger] tail[j].name by {
                assert(tail[i] == es[i + 1] && tail[j] == es[j + 1]);
            }
        }
        lemma_canonical_order_distinct(tail);
        lemma_canonical_order(tail);
        lemma_insertion_point(rest, es.first().name, 0);
        assert forall|i: int, j: int| 0 <= i < j < out.len() implies #[trigger] out[i].name
            != #[trigger] out[j].name by {
            if i == at || j == at {
                let other = if i == at { j - 1 } else { i };
                assert(out[if i == at { j } else { i }] == rest[other]);
                lemma_canonical_order_member(tail, other);
                let m = choose|m: int| 0 <= m < tail.len() && tail[m] == rest[other];
                assert(tail[m] == es[m + 1]);
                assert(es[0].name != es[m + 1].name);
            } else {
                let i0 = if i < at { i } else { i - 1 };
                let j0 = if j < at { j } else { j - 1 };
                assert(out[i] == rest[i0] && out[j] == rest[j0]);
                assert(rest[i0].name != rest[j0].name);
            }
        }
    }
}

/// Two listings sorted by name that hold the same entries, no two of them
/// under one name, are the same listing.
pub proof fn lemma_sorted_listing_unique(x: Seq<EntryView>, y: Seq<EntryView>)
    requires
        sorted_by_name(x),
        sorted_by_name(y),
        distinct_names(x),
        x.to_multiset() == y.to_multiset(),
    ensures
        x == y,
    decreases x.len(),
{
    x.to_multiset_ensures();
    y.to_multiset_ensures();
    if x.len() == 0 {
        assert(x =~= y);
    } else {
        assert(x.contains(x[0]));
        assert(y.contains(y[0]));
        to_multiset_contains(x, x[0]);
        to_multiset_contains(y, x[0]);
        to_multiset_contains(y, y[0]);
        to_multiset_contains(x, y[0]);
        let j = choose|j: int| 0 <= j < y.len() && y[j] == x[0];
        let i = choose|i: int| 0 <= i < x.len() && x[i] == y[0];
        if i > 0 {
            assert(name_le(x[0].name, x[i].name));
        } else {
            lemma_name_le_reflexive(x[0].name);
        }
        if j > 0 {
            assert(name_le(y[0].name, y[j].name));
        } else {
            lemma_name_le_reflexive(y[0].name);
        }
        lemma_name_le_antisymmetric(x[0].name, y[0].name);
        if i > 0 {
            assert(x[0].name != x[i].name);
        }
        assert(x[0] == y[0]);
        let xs = x.drop_first();
        let ys = y.drop_first();
        assert(x.remove(0) =~= xs);
        assert(y.remove(0) =~= ys);
        assert(xs.to_multiset() == ys.to_multiset());
        assert forall|p: int, q: int| 0 <= p < q < xs.len() implies name_le(
            #[trigger] xs[p].name,
            #[trigger] xs[q].name,
        ) && xs[p].name != xs[q].name by {
            assert(xs[p] == x[p + 1] && xs[q] == x[q + 1]);
        }
        assert forall|p: int, q: int| 0 <= p < q < ys.len() implies name_le(
            #[trigger] ys[p].name,
            #[trigger] ys[q].name,
        ) by {
            assert(ys[p] == y[p + 1] && ys[q] == y[q + 1]);
        }
        lemma_sorted_listing_unique(xs, ys);
        assert(x =~= seq![x[0]] + xs);
        assert(y =~= seq![y[0]] + ys);
    }
}

/// The canonical order does not depend on the order in which the entries
/// came: two listings with the same entries, no two of them under one name,
/// have the same canonical order.
pub proof fn lemma_canonical_order_independent(a: Seq<EntryView>, b: Seq<EntryView>)
    requires
        a.to_multiset() == b.to_multiset(),
        distinct_names(a),
    ensures
        canonical_order(a) == canonical_order(b),
{
    lemma_canonical_order(a);
    lemma_canonical_order(b);
    lemma_canonical_order_distinct(a);
    lemma_sorted_listing_unique(canonical_order(a), canonical_order(b));
}

/// Whether `a` comes no later than `b` in byte-wise lexicographic order.
pub fn names_in_order(a: &[u8], b: &[u8]) -> (r: bool)
    ensures
        r == name_le(a@, b@),
{
    let mut i: usize = 0;
    proof {
        assert(a@.skip(0) =~= a@);
        assert(b@.skip(0) =~= b@);
    }
    while i < a.len() && i < b.len()
        invariant
            i <= a.len(),
            i <= b.len(),
            name_le(a@, b@) == name_le(a@.skip(i as int), b@.skip(i as int)),
        decreases a.len() - i,
    {
        proof {
            assert(a@.skip(i as int)[0] == a@[i as int]);
            assert(b@.skip(i as int)[0] == b@[i as int]);
            assert(a@.skip(i as int).drop_first() =~= a@.skip(i + 1));
            assert(b@.skip(i as int).drop_first() =~= b@.skip(i + 1));
        }
        if a[i] != b[i] {
            return a[i] < b[i];
        }
        i += 1;
    }
    i >= a.len()
}

/// Puts `entries` into canonical order: sorted by name, byte-wise, whatever
/// order they came in.  Nothing is added or lost.
pub fn sort_entries(entries: &mut Vec<TreeEntry>)
    ensures
        entry_views(final(entries)@) == canonical_order(entry_views(old(entries)@)),
        sorted_by_name(entry_views(final(entries)@)),
        entry_views(final(entries)@).to_multiset() == entry_views(old(entries)@).to_multiset(),
        final(entries)@.len() == old(entries)@.len(),
{
    let ghost all = entry_views(entries@);
    let mut sorted: Vec<TreeEntry> = Vec::new();
    proof {
        assert(all.skip(all.len() as int) =~= Seq::<EntryView>::empty());
        assert(entry_views(sorted@) =~= Seq::<EntryView>::empty());
    }
    while entries.len() > 0
        invariant
            entries@.len() <= all.len(),
            entry_views(entries@) == all.take(entries@.len() as int),
            entry_views(sorted@) == canonical_order(all.skip(entries@.len() as int)),
        decreases entries@.len(),
    {
        let ghost before = entry_views(entries@);
        let ghost placed = entry_views(sorted@);
        let entry = entries.pop().unwrap();
        let ghost left = entries@.len() as int;
        proof {
            assert(entry@ == before[left]);
            assert(before[left] == all[left]);
            assert(entry_views(entries@) =~= all.take(left));
            assert(all.skip(left).first() == entry@);
            assert(all.skip(left).drop_first() =~= all.skip(left + 1));
            lemma_canonical_order(all.skip(left + 1));
        }
        let mut at: usize = 0;
        while at < sorted.len() && !names_in_order(entry.name.as_slice(), sorted[at].name.as_slice())
            invariant
                at <= sorted@.len(),
                placed == entry_views(sorted@),
                insertion_point(placed, entry@.name, 0) == insertion_point(
                    placed,
                    entry@.name,
                    at as int,
                ),
            decreases sorted@.len() - at,
        {
            proof {
                assert(placed[at as int] == sorted@[at as int]@);
            }
            at += 1;
        }
        proof {
            if at < sorted@.len() {
                assert(placed[at as int] == sorted@[at as int]@);
            }
            assert(insertion_point(placed, entry@.name, 0) == at);
            assert(entry_views(sorted@.insert(at as int, entry)) =~= placed.insert(
                at as int,
                entry@,
            ));
        }
        sorted.insert(at, entry);
    }
    proof {
        assert(all.skip(0) =~= all);
        lemma_canonical_order(all);
    }
    *entries = sorted;
}

} // verus!
