//! What holds of the tables after any sequence of additions: every tier is
//! determined by the day data, entries stay ordered, additions are idempotent,
//! peers merge by union, and a day's addition leaves other days alone.

use crate::byte_string::{bytes_lt, lemma_bytes_lt_irreflexive, lemma_bytes_lt_total, lemma_bytes_lt_transitive};
use crate::local_storage::{
    add_spec, cell, day_digest, day_entries, empty_model, entry_position, ids_concat, merge_all,
    merge_one, month_digest, range_concat, union_peers, year_digest, EntryModel, StorageModel,
};
use crate::opaque_date::{lemma_day_in_month_range, lemma_month_in_year_range};
use vstd::prelude::*;

verus! {

/// Entries strictly ascending by object identifier (so each identifier once).
pub open spec fn entries_sorted(es: Seq<EntryModel>) -> bool {
    forall|i: int, j: int| 0 <= i < j < es.len() ==> bytes_lt(#[trigger] es[i].0, #[trigger] es[j].0)
}

/// No entry lists a peer label twice.
pub open spec fn peers_unique(es: Seq<EntryModel>) -> bool {
    forall|i: int| 0 <= i < es.len() ==> (#[trigger] es[i]).1.no_duplicates()
}

/// Every day's entries are strictly ascending by object identifier, and no
/// entry lists a peer label twice.
pub open spec fn days_sorted(s: StorageModel) -> bool {
    forall|k: u32| #[trigger] s.data.contains_key(k) ==> entries_sorted(s.data[k]) && peers_unique(s.data[k])
}

/// Each digest tier is determined by the tier below: a day's digest by its
/// entries, a month's by its days' digests, a year's by its months' digests;
/// and a tier holds a key exactly where the tier below has one under it.
pub open spec fn consistent(s: StorageModel) -> bool {
    &&& forall|k: u32| #[trigger] s.days.contains_key(k) <==> s.data.contains_key(k)
    &&& forall|k: u32| #[trigger] s.data.contains_key(k) ==> s.days[k] == day_digest(s.data[k])
    &&& forall|ym: u32| #[trigger] s.months.contains_key(ym) <==> exists|k: u32| #[trigger] s.data.contains_key(k) && k / 100 == ym
    &&& forall|ym: u32| #[trigger] s.months.contains_key(ym) ==> s.months[ym] == month_digest(s.days, ym as int)
    &&& forall|y: u32| #[trigger] s.years.contains_key(y) <==> exists|ym: u32| #[trigger] s.months.contains_key(ym) && ym / 100 == y
    &&& forall|y: u32| #[trigger] s.years.contains_key(y) ==> s.years[y] == year_digest(s.months, y as int)
}

/// Whether some entry of `es` has identifier `oid` and holds every label of `peers`.
pub open spec fn covers(es: Seq<EntryModel>, oid: Seq<u8>, peers: Seq<Seq<u8>>) -> bool {
    exists|i: int| 0 <= i < es.len() && #[trigger] es[i].0 == oid && forall|q: Seq<u8>| peers.contains(q) ==> es[i].1.contains(q)
}

pub proof fn lemma_empty_consistent()
    ensures
        consistent(empty_model()),
        days_sorted(empty_model()),
{
}

/// Range concatenations agree where the maps agree on the whole range.
proof fn lemma_range_concat_agree(m1: Map<u32, Seq<u8>>, m2: Map<u32, Seq<u8>>, lo: int, hi: int)
    requires
        forall|k: int| lo <= k <= hi ==> cell(m1, k) == cell(m2, k),
    ensures
        range_concat(m1, lo, hi) == range_concat(m2, lo, hi),
    decreases hi + 1 - lo,
{
    if hi >= lo {
        lemma_range_concat_agree(m1, m2, lo, hi - 1);
    }
}

/// An addition keeps every tier determined by the tier below.
pub proof fn lemma_add_keeps_consistent(s: StorageModel, ymd: u32, incoming: Seq<EntryModel>)
    requires
        consistent(s),
    ensures
        consistent(add_spec(s, ymd, incoming)),
{
    let t = add_spec(s, ymd, incoming);
    let ym = (ymd / 100) as u32;
    let y = (ym / 100) as u32;
    assert forall|m: u32| #[trigger] t.months.contains_key(m) implies t.months[m] == month_digest(t.days, m as int) by {
        if m != ym {
            assert forall|k: int| (m * 100 + 1) as int <= k <= (m * 100 + 31) as int implies cell(t.days, k) == cell(s.days, k) by {
                lemma_day_in_month_range(k, m as int);
                if k == ymd {
                    assert(ymd / 100 == m);
                }
            }
            lemma_range_concat_agree(t.days, s.days, m * 100 + 1, m * 100 + 31);
        }
    }
    assert forall|yy: u32| #[trigger] t.years.contains_key(yy) implies t.years[yy] == year_digest(t.months, yy as int) by {
        if yy != y {
            assert forall|k: int| (yy * 100 + 1) as int <= k <= (yy * 100 + 12) as int implies cell(t.months, k) == cell(s.months, k) by {
                lemma_month_in_year_range(k, yy as int);
                if k == ym {
                    assert(ym / 100 == yy);
                }
            }
            lemma_range_concat_agree(t.months, s.months, yy * 100 + 1, yy * 100 + 12);
        }
    }
    assert forall|m: u32| #[trigger] t.months.contains_key(m) <==> exists|k: u32| #[trigger] t.data.contains_key(k) && k / 100 == m by {
        if m == ym {
            assert(t.data.contains_key(ymd));
        } else if t.months.contains_key(m) {
            let k = choose|k: u32| #[trigger] s.data.contains_key(k) && k / 100 == m;
            assert(t.data.contains_key(k));
        } else if exists|k: u32| #[trigger] t.data.contains_key(k) && k / 100 == m {
            let k = choose|k: u32| #[trigger] t.data.contains_key(k) && k / 100 == m;
            assert(s.data.contains_key(k));
        }
    }
    assert forall|yy: u32| #[trigger] t.years.contains_key(yy) <==> exists|m: u32| #[trigger] t.months.contains_key(m) && m / 100 == yy by {
        if yy == y {
            assert(t.months.contains_key(ym));
        } else if t.years.contains_key(yy) {
            let m = choose|m: u32| #[trigger] s.months.contains_key(m) && m / 100 == yy;
            assert(t.months.contains_key(m));
        } else if exists|m: u32| #[trigger] t.months.contains_key(m) && m / 100 == yy {
            let m = choose|m: u32| #[trigger] t.months.contains_key(m) && m / 100 == yy;
            assert(s.months.contains_key(m));
        }
    }
}

/// The digests of every tier depend only on the day data, not on the order
/// of the additions that produced it: two consistent catalogs with the same
/// entries have the same digest tables.
pub proof fn lemma_digests_depend_only_on_data(a: StorageModel, b: StorageModel)
    requires
        consistent(a),
        consistent(b),
        a.data == b.data,
    ensures
        a.days == b.days,
        a.months == b.months,
        a.years == b.years,
{
    assert(a.days =~= b.days);
    assert forall|m: u32| #[trigger] a.months.contains_key(m) <==> b.months.contains_key(m) by {
        if a.months.contains_key(m) {
            let k = choose|k: u32| #[trigger] a.data.contains_key(k) && k / 100 == m;
            assert(b.data.contains_key(k));
        }
        if b.months.contains_key(m) {
            let k = choose|k: u32| #[trigger] b.data.contains_key(k) && k / 100 == m;
            assert(a.data.contains_key(k));
        }
    }
    assert(a.months =~= b.months);
    assert forall|y: u32| #[trigger] a.years.contains_key(y) <==> b.years.contains_key(y) by {
        if a.years.contains_key(y) {
            let m = choose|m: u32| #[trigger] a.months.contains_key(m) && m / 100 == y;
            assert(b.months.contains_key(m));
        }
        if b.years.contains_key(y) {
            let m = choose|m: u32| #[trigger] b.months.contains_key(m) && m / 100 == y;
            assert(a.months.contains_key(m));
        }
    }
    assert(a.years =~= b.years);
}

/// Adding to one day leaves the entries and the digest of every other day,
/// the digest of every other month and of every other year as they were; the
/// month and year of that day get the digests of their tier below.
pub proof fn lemma_sibling_isolation(s: StorageModel, d1: u32, incoming: Seq<EntryModel>, d2: u32)
    requires
        d1 != d2,
    ensures
        ({
            let t = add_spec(s, d1, incoming);
            &&& t.days.contains_key(d2) == s.days.contains_key(d2)
            &&& s.days.contains_key(d2) ==> t.days[d2] == s.days[d2]
            &&& t.data.contains_key(d2) == s.data.contains_key(d2)
            &&& s.data.contains_key(d2) ==> t.data[d2] == s.data[d2]
            &&& t.days.remove(d1) == s.days.remove(d1)
            &&& t.months.remove(d1 / 100) == s.months.remove(d1 / 100)
            &&& t.years.remove(d1 / 10000) == s.years.remove(d1 / 10000)
            &&& t.months[d1 / 100] == month_digest(t.days, (d1 / 100) as int)
            &&& t.years[d1 / 10000] == year_digest(t.months, (d1 / 10000) as int)
        }),
{
    let t = add_spec(s, d1, incoming);
    assert(t.days.remove(d1) =~= s.days.remove(d1));
    assert(d1 / 100 / 100 == d1 / 10000);
    assert(t.months.remove(d1 / 100) =~= s.months.remove(d1 / 100));
    assert(t.years.remove(d1 / 10000) =~= s.years.remove(d1 / 10000));
}


/// In ascending entries, `entry_position` splits the entries before `oid` from the rest.
proof fn lemma_entry_position(es: Seq<EntryModel>, oid: Seq<u8>)
    requires
        entries_sorted(es),
    ensures
        0 <= entry_position(es, oid) <= es.len(),
        forall|i: int| 0 <= i < entry_position(es, oid) ==> bytes_lt(#[trigger] es[i].0, oid),
        forall|i: int| entry_position(es, oid) <= i < es.len() ==> !bytes_lt(#[trigger] es[i].0, oid),
    decreases es.len(),
{
    if es.len() > 0 {
        let rest = es.drop_last();
        lemma_entry_position(rest, oid);
        if bytes_lt(es.last().0, oid) {
            assert forall|i: int| 0 <= i < es.len() implies bytes_lt(#[trigger] es[i].0, oid) by {
                if i < es.len() - 1 {
                    lemma_bytes_lt_transitive(es[i].0, es.last().0, oid);
                }
            }
        } else {
            assert forall|i: int| 0 <= i < entry_position(es, oid) implies bytes_lt(#[trigger] es[i].0, oid) by {
                assert(rest[i] == es[i]);
            }
            assert forall|i: int| entry_position(es, oid) <= i < es.len() implies !bytes_lt(#[trigger] es[i].0, oid) by {
                if i < es.len() - 1 {
                    assert(rest[i] == es[i]);
                }
            }
        }
    }
}

/// In ascending entries holding `oid` at `i`, `i` is where `oid` belongs.
proof fn lemma_entry_position_found(es: Seq<EntryModel>, oid: Seq<u8>, i: int)
    requires
        entries_sorted(es),
        0 <= i < es.len(),
        es[i].0 == oid,
    ensures
        entry_position(es, oid) == i,
{
    lemma_entry_position(es, oid);
    let p = entry_position(es, oid);
    lemma_bytes_lt_irreflexive(oid);
    if p < i {
        assert(bytes_lt(es[p].0, es[i].0));
    }
}

/// Union keeps what was there and adds every incoming label, nothing else.
proof fn lemma_union_peers(acc: Seq<Seq<u8>>, incoming: Seq<Seq<u8>>)
    ensures
        union_peers(acc, incoming).to_set() == acc.to_set() + incoming.to_set(),
        forall|q: Seq<u8>| acc.contains(q) ==> union_peers(acc, incoming).contains(q),
        forall|q: Seq<u8>| incoming.contains(q) ==> union_peers(acc, incoming).contains(q),
        (forall|q: Seq<u8>| incoming.contains(q) ==> acc.contains(q)) ==> union_peers(acc, incoming) == acc,
        acc.no_duplicates() ==> union_peers(acc, incoming).no_duplicates(),
    decreases incoming.len(),
{
    if incoming.len() > 0 {
        let rest = incoming.drop_last();
        let x = incoming.last();
        lemma_union_peers(acc, rest);
        let u = union_peers(acc, rest);
        assert(incoming =~= rest.push(x));
        assert(incoming.to_set() =~= rest.to_set().insert(x)) by {
            assert forall|q: Seq<u8>| incoming.contains(q) <==> rest.contains(q) || q == x by {
                if incoming.contains(q) {
                    let j = choose|j: int| 0 <= j < incoming.len() && incoming[j] == q;
                    if j < rest.len() {
                        assert(rest[j] == q);
                    }
                }
                if rest.contains(q) {
                    let j = choose|j: int| 0 <= j < rest.len() && rest[j] == q;
                    assert(incoming[j] == q);
                }
                if q == x {
                    assert(incoming[incoming.len() - 1] == q);
                }
            }
        }
        if !u.contains(x) {
            if acc.no_duplicates() {
                assert forall|i: int, j: int| 0 <= i < u.push(x).len() && 0 <= j < u.push(x).len() && i != j implies u.push(x)[i] != u.push(x)[j] by {
                    if i == u.len() {
                        assert(u[j] == u.push(x)[j]);
                    } else if j == u.len() {
                        assert(u[i] == u.push(x)[i]);
                    }
                }
            }
            assert(u.push(x).to_set() =~= u.to_set().insert(x)) by {
                assert forall|q: Seq<u8>| u.push(x).contains(q) <==> u.contains(q) || q == x by {
                    if u.push(x).contains(q) {
                        let j = choose|j: int| 0 <= j < u.push(x).len() && u.push(x)[j] == q;
                        if j < u.len() {
                            assert(u[j] == q);
                        }
                    }
                    if u.contains(q) {
                        let j = choose|j: int| 0 <= j < u.len() && u[j] == q;
                        assert(u.push(x)[j] == q);
                    }
                    if q == x {
                        assert(u.push(x)[u.len() as int] == q);
                    }
                }
            }
        }
        assert(union_peers(acc, incoming).to_set() =~= acc.to_set() + incoming.to_set());
        let r = union_peers(acc, incoming);
        assert forall|q: Seq<u8>| acc.contains(q) || incoming.contains(q) implies r.contains(q) by {
            assert((acc.to_set() + incoming.to_set()).contains(q));
            assert(r.to_set().contains(q));
        }
        if forall|q: Seq<u8>| incoming.contains(q) ==> acc.contains(q) {
            assert forall|q: Seq<u8>| rest.contains(q) implies acc.contains(q) by {
                let j = choose|j: int| 0 <= j < rest.len() && rest[j] == q;
                assert(incoming[j] == q);
            }
            assert(incoming[incoming.len() - 1] == x);
        }
    }
}

/// Merging one entry keeps the entries strictly ascending.
proof fn lemma_merge_one_sorted(es: Seq<EntryModel>, oid: Seq<u8>, peers: Seq<Seq<u8>>)
    requires
        entries_sorted(es),
    ensures
        entries_sorted(merge_one(es, oid, peers)),
        peers_unique(es) ==> peers_unique(merge_one(es, oid, peers)),
{
    lemma_entry_position(es, oid);
    let p = entry_position(es, oid);
    let r = merge_one(es, oid, peers);
    let e: Seq<Seq<u8>> = Seq::empty();
    lemma_union_peers(e, peers);
    if p < es.len() {
        lemma_union_peers(es[p].1, peers);
    }
    if peers_unique(es) {
        assert forall|i: int| 0 <= i < r.len() implies (#[trigger] r[i]).1.no_duplicates() by {
            if !(p < es.len() && es[p].0 == oid) && i > p {
                assert(r[i] == es[i - 1]);
            }
        }
    }
    if !(p < es.len() && es[p].0 == oid) {
        if p < es.len() {
            lemma_bytes_lt_total(es[p].0, oid);
        }
        assert forall|j: int| p <= j < es.len() implies bytes_lt(oid, #[trigger] es[j].0) by {
            if j > p {
                lemma_bytes_lt_transitive(oid, es[p].0, es[j].0);
            }
        }
        assert forall|i: int, j: int| 0 <= i < j < r.len() implies bytes_lt(#[trigger] r[i].0, #[trigger] r[j].0) by {
            if i < p && j > p {
                assert(r[j] == es[j - 1]);
                lemma_bytes_lt_transitive(r[i].0, oid, r[j].0);
            } else if i > p {
                assert(r[i] == es[i - 1] && r[j] == es[j - 1]);
            } else if i == p {
                assert(r[j] == es[j - 1]);
            }
        }
    }
}

/// After merging `(oid, peers)`, some entry has `oid` and holds all of `peers`,
/// and whatever the entries covered before they still cover.
proof fn lemma_merge_one_covers(es: Seq<EntryModel>, oid: Seq<u8>, peers: Seq<Seq<u8>>)
    requires
        entries_sorted(es),
    ensures
        covers(merge_one(es, oid, peers), oid, peers),
        forall|o: Seq<u8>, ps: Seq<Seq<u8>>| covers(es, o, ps) ==> covers(merge_one(es, oid, peers), o, ps),
{
    lemma_entry_position(es, oid);
    let p = entry_position(es, oid);
    let r = merge_one(es, oid, peers);
    if p < es.len() && es[p].0 == oid {
        lemma_union_peers(es[p].1, peers);
        assert(r[p].0 == oid);
        assert forall|o: Seq<u8>, ps: Seq<Seq<u8>>| covers(es, o, ps) implies covers(r, o, ps) by {
            let i = choose|i: int| 0 <= i < es.len() && #[trigger] es[i].0 == o && forall|q: Seq<u8>| ps.contains(q) ==> es[i].1.contains(q);
            assert(r[i].0 == o);
        }
    } else {
        lemma_union_peers(Seq::empty(), peers);
        assert(r[p].0 == oid);
        assert forall|o: Seq<u8>, ps: Seq<Seq<u8>>| covers(es, o, ps) implies covers(r, o, ps) by {
            let i = choose|i: int| 0 <= i < es.len() && #[trigger] es[i].0 == o && forall|q: Seq<u8>| ps.contains(q) ==> es[i].1.contains(q);
            if i < p {
                assert(r[i].0 == o);
            } else {
                assert(r[i + 1].0 == o);
            }
        }
    }
}

/// Merging an entry that is already covered changes nothing.
proof fn lemma_merge_one_covered(es: Seq<EntryModel>, oid: Seq<u8>, peers: Seq<Seq<u8>>)
    requires
        entries_sorted(es),
        covers(es, oid, peers),
    ensures
        merge_one(es, oid, peers) == es,
{
    let i = choose|i: int| 0 <= i < es.len() && #[trigger] es[i].0 == oid && forall|q: Seq<u8>| peers.contains(q) ==> es[i].1.contains(q);
    lemma_entry_position_found(es, oid, i);
    lemma_union_peers(es[i].1, peers);
    assert(merge_one(es, oid, peers) =~= es);
}

/// Merging a batch keeps the entries ascending and covers every incoming entry.
proof fn lemma_merge_all(es: Seq<EntryModel>, incoming: Seq<EntryModel>)
    requires
        entries_sorted(es),
    ensures
        entries_sorted(merge_all(es, incoming)),
        peers_unique(es) ==> peers_unique(merge_all(es, incoming)),
        forall|i: int| 0 <= i < incoming.len() ==> covers(merge_all(es, incoming), #[trigger] incoming[i].0, incoming[i].1),
        forall|o: Seq<u8>, ps: Seq<Seq<u8>>| covers(es, o, ps) ==> covers(merge_all(es, incoming), o, ps),
    decreases incoming.len(),
{
    if incoming.len() > 0 {
        let rest = incoming.drop_last();
        lemma_merge_all(es, rest);
        let prev = merge_all(es, rest);
        lemma_merge_one_sorted(prev, incoming.last().0, incoming.last().1);
        lemma_merge_one_covers(prev, incoming.last().0, incoming.last().1);
        assert forall|i: int| 0 <= i < incoming.len() implies covers(merge_all(es, incoming), #[trigger] incoming[i].0, incoming[i].1) by {
            if i < rest.len() {
                assert(rest[i] == incoming[i]);
            }
        }
    }
}

/// Merging a batch whose every entry is covered changes nothing.
proof fn lemma_merge_all_covered(es: Seq<EntryModel>, incoming: Seq<EntryModel>)
    requires
        entries_sorted(es),
        forall|i: int| 0 <= i < incoming.len() ==> covers(es, #[trigger] incoming[i].0, incoming[i].1),
    ensures
        merge_all(es, incoming) == es,
    decreases incoming.len(),
{
    if incoming.len() > 0 {
        let rest = incoming.drop_last();
        assert forall|i: int| 0 <= i < rest.len() implies covers(es, #[trigger] rest[i].0, rest[i].1) by {
            assert(rest[i] == incoming[i]);
        }
        lemma_merge_all_covered(es, rest);
        assert(incoming.last() == incoming[incoming.len() - 1]);
        lemma_merge_one_covered(es, incoming.last().0, incoming.last().1);
    }
}

/// An addition keeps every day's entries strictly ascending by identifier.
pub proof fn lemma_add_keeps_sorted(s: StorageModel, ymd: u32, incoming: Seq<EntryModel>)
    requires
        days_sorted(s),
    ensures
        days_sorted(add_spec(s, ymd, incoming)),
{
    lemma_merge_all(day_entries(s, ymd), incoming);
}

/// Adding the same entries to the same day twice leaves every table as the
/// first addition left it.
pub proof fn lemma_add_idempotent(s: StorageModel, ymd: u32, incoming: Seq<EntryModel>)
    requires
        days_sorted(s),
    ensures
        add_spec(add_spec(s, ymd, incoming), ymd, incoming) == add_spec(s, ymd, incoming),
{
    let s1 = add_spec(s, ymd, incoming);
    let d1 = merge_all(day_entries(s, ymd), incoming);
    lemma_merge_all(day_entries(s, ymd), incoming);
    assert(day_entries(s1, ymd) == d1);
    lemma_merge_all_covered(d1, incoming);
    let s2 = add_spec(s1, ymd, incoming);
    assert(s2.data =~= s1.data);
    assert(s2.days =~= s1.days);
    assert(s2.months =~= s1.months);
    assert(s2.years =~= s1.years);
}

/// Replacing the peers of one entry leaves the identifiers' concatenation as it was.
proof fn lemma_ids_concat_update(es: Seq<EntryModel>, p: int, e: EntryModel)
    requires
        0 <= p < es.len(),
        e.0 == es[p].0,
    ensures
        ids_concat(es.update(p, e)) == ids_concat(es),
    decreases es.len(),
{
    let u = es.update(p, e);
    if p == es.len() - 1 {
        assert(u.drop_last() =~= es.drop_last());
    } else {
        lemma_ids_concat_update(es.drop_last(), p, e);
        assert(u.drop_last() =~= es.drop_last().update(p, e));
    }
}

/// Two additions of one identifier with two labels give a single entry for
/// it, whose labels are those two; the day's digest after the second
/// addition is the one after the first, and so are all digest tables.
pub proof fn lemma_peer_union(s: StorageModel, ymd: u32, oid: Seq<u8>, label_a: Seq<u8>, label_b: Seq<u8>)
    requires
        days_sorted(s),
        forall|i: int| 0 <= i < day_entries(s, ymd).len() ==> #[trigger] day_entries(s, ymd)[i].0 != oid,
    ensures
        ({
            let s1 = add_spec(s, ymd, seq![(oid, seq![label_a])]);
            let s2 = add_spec(s1, ymd, seq![(oid, seq![label_b])]);
            let es = s2.data[ymd];
            &&& exists|i: int| 0 <= i < es.len() && #[trigger] es[i].0 == oid && es[i].1.to_set() == set![label_a, label_b]
            &&& forall|i: int, j: int| 0 <= i < j < es.len() ==> #[trigger] es[i].0 != #[trigger] es[j].0
            &&& s2.days == s1.days
            &&& s2.months == s1.months
            &&& s2.years == s1.years
        }),
{
    let d0 = day_entries(s, ymd);
    let e1 = seq![(oid, seq![label_a])];
    let e2 = seq![(oid, seq![label_b])];
    assert(e1.drop_last() =~= Seq::<EntryModel>::empty());
    assert(e2.drop_last() =~= Seq::<EntryModel>::empty());
    let s1 = add_spec(s, ymd, e1);
    let d1 = merge_one(d0, oid, seq![label_a]);
    assert(merge_all(d0, e1.drop_last()) == d0);
    assert(e1.last() == (oid, seq![label_a]));
    assert(merge_all(d0, e1) == d1);
    lemma_entry_position(d0, oid);
    let p = entry_position(d0, oid);
    let ea: Seq<Seq<u8>> = Seq::empty();
    assert(seq![label_a].drop_last() =~= ea);
    assert(union_peers(ea, seq![label_a].drop_last()) == ea);
    assert(!ea.contains(label_a));
    assert(seq![label_a].last() == label_a);
    assert(ea.push(label_a) =~= seq![label_a]);
    assert(union_peers(ea, seq![label_a]) == seq![label_a]);
    assert(d1 == d0.insert(p, (oid, seq![label_a])));
    lemma_merge_one_sorted(d0, oid, seq![label_a]);
    assert(day_entries(s1, ymd) == d1);
    let d2 = merge_one(d1, oid, seq![label_b]);
    assert(merge_all(d1, e2.drop_last()) == d1);
    assert(e2.last() == (oid, seq![label_b]));
    assert(merge_all(d1, e2) == d2);
    lemma_entry_position_found(d1, oid, p);
    let u = union_peers(seq![label_a], seq![label_b]);
    assert(d2 == d1.update(p, (oid, u)));
    lemma_union_peers(seq![label_a], seq![label_b]);
    assert(seq![label_a].to_set() + seq![label_b].to_set() =~= set![label_a, label_b]) by {
        assert(seq![label_a].contains(label_a));
        assert(seq![label_b].contains(label_b));
    }
    lemma_merge_one_sorted(d1, oid, seq![label_b]);
    assert forall|i: int, j: int| 0 <= i < j < d2.len() implies #[trigger] d2[i].0 != #[trigger] d2[j].0 by {
        lemma_bytes_lt_irreflexive(d2[i].0);
    }
    lemma_ids_concat_update(d1, p, (oid, u));
    let s2 = add_spec(s1, ymd, e2);
    assert(d2[p].0 == oid);
    assert(d2[p].1 == u);
    assert(u.to_set() == set![label_a, label_b]);
    assert(s2.data[ymd] == d2);
    assert(s2.days =~= s1.days);
    assert(s2.months =~= s1.months);
    assert(s2.years =~= s1.years);
}


/// Every entry that `a` holds for day `ymd`, `b` holds too, with at least its peers.
pub open spec fn day_covered(a: StorageModel, b: StorageModel, ymd: u32) -> bool {
    a.data.contains_key(ymd) ==> b.data.contains_key(ymd) && forall|i: int|
        0 <= i < a.data[ymd].len() ==> covers(b.data[ymd], #[trigger] a.data[ymd][i].0, a.data[ymd][i].1)
}

/// `b` holds every entry of every day of `a`, with at least its peers.
pub open spec fn grows(a: StorageModel, b: StorageModel) -> bool {
    forall|ymd: u32| #[trigger] day_covered(a, b, ymd)
}

/// A catalog covers itself.
pub proof fn lemma_grows_reflexive(a: StorageModel)
    ensures
        grows(a, a),
{
    assert forall|ymd: u32| #[trigger] day_covered(a, a, ymd) by {
        if a.data.contains_key(ymd) {
            let es = a.data[ymd];
            assert forall|i: int| 0 <= i < es.len() implies covers(es, #[trigger] es[i].0, es[i].1) by {
                assert(es[i].0 == es[i].0);
            }
        }
    }
}

/// What a catalog covers of a day stays covered as the catalog grows.
pub proof fn lemma_day_covered_grows(a: StorageModel, b: StorageModel, c: StorageModel, ymd: u32)
    requires
        day_covered(a, b, ymd),
        grows(b, c),
    ensures
        day_covered(a, c, ymd),
{
    if a.data.contains_key(ymd) {
        assert(day_covered(b, c, ymd));
        let ea = a.data[ymd];
        let eb = b.data[ymd];
        let ec = c.data[ymd];
        assert forall|i: int| 0 <= i < ea.len() implies covers(ec, #[trigger] ea[i].0, ea[i].1) by {
            assert(covers(eb, ea[i].0, ea[i].1));
            let j = choose|j: int| 0 <= j < eb.len() && #[trigger] eb[j].0 == ea[i].0 && forall|q: Seq<u8>| ea[i].1.contains(q) ==> eb[j].1.contains(q);
            assert(covers(ec, eb[j].0, eb[j].1));
            let k = choose|k: int| 0 <= k < ec.len() && #[trigger] ec[k].0 == eb[j].0 && forall|q: Seq<u8>| eb[j].1.contains(q) ==> ec[k].1.contains(q);
            assert(ec[k].0 == ea[i].0);
        }
    }
}

/// Growth is transitive.
pub proof fn lemma_grows_transitive(a: StorageModel, b: StorageModel, c: StorageModel)
    requires
        grows(a, b),
        grows(b, c),
    ensures
        grows(a, c),
{
    assert forall|ymd: u32| #[trigger] day_covered(a, c, ymd) by {
        assert(day_covered(a, b, ymd));
        lemma_day_covered_grows(a, b, c, ymd);
    }
}

/// An addition loses nothing: the catalog grows, and the day then holds every
/// incoming entry with at least its peers.
pub proof fn lemma_add_grows(s: StorageModel, ymd: u32, incoming: Seq<EntryModel>)
    requires
        days_sorted(s),
    ensures
        grows(s, add_spec(s, ymd, incoming)),
        forall|i: int| 0 <= i < incoming.len() ==> covers(add_spec(s, ymd, incoming).data[ymd], #[trigger] incoming[i].0, incoming[i].1),
{
    let t = add_spec(s, ymd, incoming);
    lemma_merge_all(day_entries(s, ymd), incoming);
    lemma_grows_reflexive(s);
    assert forall|k: u32| #[trigger] day_covered(s, t, k) by {
        assert(day_covered(s, s, k));
        if k == ymd && s.data.contains_key(k) {
            let es = s.data[k];
            assert forall|i: int| 0 <= i < es.len() implies covers(t.data[k], #[trigger] es[i].0, es[i].1) by {
                assert(covers(es, es[i].0, es[i].1));
            }
        }
    }
}


/// What a catalog covers of a day, a catalog that it grew from covers too.
pub proof fn lemma_covered_from_earlier(a: StorageModel, b: StorageModel, c: StorageModel, ymd: u32)
    requires
        grows(a, b),
        day_covered(b, c, ymd),
    ensures
        day_covered(a, c, ymd),
{
    assert(day_covered(a, b, ymd));
    if a.data.contains_key(ymd) {
        let ea = a.data[ymd];
        let eb = b.data[ymd];
        let ec = c.data[ymd];
        assert forall|i: int| 0 <= i < ea.len() implies covers(ec, #[trigger] ea[i].0, ea[i].1) by {
            assert(covers(eb, ea[i].0, ea[i].1));
            let j = choose|j: int| 0 <= j < eb.len() && #[trigger] eb[j].0 == ea[i].0 && forall|q: Seq<u8>| ea[i].1.contains(q) ==> eb[j].1.contains(q);
            assert(covers(ec, eb[j].0, eb[j].1));
            let k = choose|k: int| 0 <= k < ec.len() && #[trigger] ec[k].0 == eb[j].0 && forall|q: Seq<u8>| eb[j].1.contains(q) ==> ec[k].1.contains(q);
            assert(ec[k].0 == ea[i].0);
        }
    }
}

/// In a consistent catalog, a day that holds entries has its year in the year tier.
pub proof fn lemma_year_of_day(s: StorageModel, ymd: u32)
    requires
        consistent(s),
        s.data.contains_key(ymd),
    ensures
        s.years.contains_key((ymd / 10000) as u32),
{
    let ym = (ymd / 100) as u32;
    assert(s.months.contains_key(ym));
    assert(ym / 100 == ymd / 10000);
    assert(s.years.contains_key((ym / 100) as u32));
}


/// The object identifiers of a day's entries, in list order.
pub open spec fn entry_ids(es: Seq<EntryModel>) -> Seq<Seq<u8>> {
    es.map_values(|e: EntryModel| e.0)
}

proof fn lemma_ids_concat_by_ids(a: Seq<EntryModel>, b: Seq<EntryModel>)
    requires
        entry_ids(a) == entry_ids(b),
    ensures
        ids_concat(a) == ids_concat(b),
    decreases a.len(),
{
    assert(a.len() == entry_ids(a).len() && b.len() == entry_ids(b).len());
    if a.len() > 0 {
        assert(entry_ids(a.drop_last()) =~= entry_ids(a).drop_last());
        assert(entry_ids(b.drop_last()) =~= entry_ids(b).drop_last());
        assert(a.last().0 == entry_ids(a)[a.len() - 1]);
        assert(b.last().0 == entry_ids(b)[b.len() - 1]);
        lemma_ids_concat_by_ids(a.drop_last(), b.drop_last());
    }
}

/// The digests of every tier depend only on which identifiers each day holds,
/// in order, never on the peer labels: two consistent catalogs whose days hold
/// the same identifiers have the same digest tables.
pub proof fn lemma_digests_depend_only_on_ids(a: StorageModel, b: StorageModel)
    requires
        consistent(a),
        consistent(b),
        a.data.dom() == b.data.dom(),
        forall|k: u32| #[trigger] a.data.contains_key(k) ==> entry_ids(a.data[k]) == entry_ids(b.data[k]),
    ensures
        a.days == b.days,
        a.months == b.months,
        a.years == b.years,
{
    assert forall|k: u32| #[trigger] a.days.contains_key(k) implies a.days[k] == b.days[k] by {
        assert(b.data.contains_key(k));
        lemma_ids_concat_by_ids(a.data[k], b.data[k]);
    }
    assert forall|k: u32| #[trigger] a.days.contains_key(k) <==> b.days.contains_key(k) by {
        assert(a.data.contains_key(k) <==> b.data.contains_key(k));
    }
    assert(a.days =~= b.days);
    assert forall|m: u32| #[trigger] a.months.contains_key(m) <==> b.months.contains_key(m) by {
        if a.months.contains_key(m) {
            let k = choose|k: u32| #[trigger] a.data.contains_key(k) && k / 100 == m;
            assert(b.data.contains_key(k));
        }
        if b.months.contains_key(m) {
            let k = choose|k: u32| #[trigger] b.data.contains_key(k) && k / 100 == m;
            assert(a.data.contains_key(k));
        }
    }
    assert(a.months =~= b.months);
    assert forall|y: u32| #[trigger] a.years.contains_key(y) <==> b.years.contains_key(y) by {
        if a.years.contains_key(y) {
            let m = choose|m: u32| #[trigger] a.months.contains_key(m) && m / 100 == y;
            assert(b.months.contains_key(m));
        }
        if b.years.contains_key(y) {
            let m = choose|m: u32| #[trigger] b.months.contains_key(m) && m / 100 == y;
            assert(a.months.contains_key(m));
        }
    }
    assert(a.years =~= b.years);
}

/// Adding labels to an identifier that a day already holds leaves every
/// digest table as it was: labels are never hashed.
pub proof fn lemma_known_id_keeps_digests(s: StorageModel, ymd: u32, oid: Seq<u8>, peers: Seq<Seq<u8>>)
    requires
        consistent(s),
        days_sorted(s),
        exists|i: int| 0 <= i < day_entries(s, ymd).len() && #[trigger] day_entries(s, ymd)[i].0 == oid,
    ensures
        ({
            let t = add_spec(s, ymd, seq![(oid, peers)]);
            &&& t.days == s.days
            &&& t.months == s.months
            &&& t.years == s.years
        }),
{
    let d = day_entries(s, ymd);
    let i = choose|i: int| 0 <= i < d.len() && #[trigger] d[i].0 == oid;
    assert(s.data.contains_key(ymd));
    let e = seq![(oid, peers)];
    assert(e.drop_last() =~= Seq::<EntryModel>::empty());
    assert(merge_all(d, e.drop_last()) == d);
    assert(e.last() == (oid, peers));
    lemma_entry_position_found(d, oid, i);
    let merged = d.update(i, (oid, union_peers(d[i].1, peers)));
    assert(merge_all(d, e) == merged);
    lemma_ids_concat_update(d, i, (oid, union_peers(d[i].1, peers)));
    let t = add_spec(s, ymd, e);
    assert(t.days =~= s.days);
    let ym = (ymd / 100) as u32;
    assert(s.months.contains_key(ym));
    assert(t.months =~= s.months);
    let y = (ym / 100) as u32;
    assert(s.years.contains_key(y));
    assert(t.years =~= s.years);
}


/// Day `k` of `b` is day `k` of `a` with `src`'s entries for it added where
/// `moved` holds and `src` has that day, and as in `a` otherwise.
pub open spec fn copied_day(a: StorageModel, b: StorageModel, src: StorageModel, moved: bool, k: u32) -> bool {
    if moved && src.data.contains_key(k) {
        b.data.contains_key(k) && b.data[k] == merge_all(day_entries(a, k), src.data[k])
    } else {
        &&& a.data.contains_key(k) == b.data.contains_key(k)
        &&& a.data.contains_key(k) ==> a.data[k] == b.data[k]
    }
}

/// `b` is `a` with `src`'s entries added on each day that `moved` selects,
/// and nothing else changed.
pub open spec fn copied(a: StorageModel, b: StorageModel, src: StorageModel, moved: spec_fn(u32) -> bool) -> bool {
    forall|k: u32| #[trigger] copied_day(a, b, src, moved(k), k)
}

/// A copy depends only on the selection of the days that `src` holds.
pub proof fn lemma_copied_congruent(a: StorageModel, b: StorageModel, src: StorageModel, f: spec_fn(u32) -> bool, g: spec_fn(u32) -> bool)
    requires
        copied(a, b, src, f),
        forall|k: u32| #[trigger] src.data.contains_key(k) ==> f(k) == g(k),
    ensures
        copied(a, b, src, g),
{
    assert forall|k: u32| #[trigger] copied_day(a, b, src, g(k), k) by {
        assert(copied_day(a, b, src, f(k), k));
    }
}

/// Nothing selected, nothing changed.
pub proof fn lemma_copied_none(a: StorageModel, src: StorageModel)
    ensures
        copied(a, a, src, |k: u32| false),
{
    let f = |k: u32| false;
    assert forall|k: u32| #[trigger] copied_day(a, a, src, f(k), k) by {}
}

/// One addition of `src`'s entries for day `k0` is a copy of that day.
pub proof fn lemma_copied_add(a: StorageModel, src: StorageModel, k0: u32)
    requires
        src.data.contains_key(k0),
    ensures
        copied(a, add_spec(a, k0, src.data[k0]), src, |k: u32| k == k0),
{
    let b = add_spec(a, k0, src.data[k0]);
    let f = |k: u32| k == k0;
    assert forall|k: u32| #[trigger] copied_day(a, b, src, f(k), k) by {}
}

/// Two copies from the same source make one copy of the days that either
/// selects: copying a day twice is copying it once.
pub proof fn lemma_copied_compose(a: StorageModel, b: StorageModel, c: StorageModel, src: StorageModel, f: spec_fn(u32) -> bool, g: spec_fn(u32) -> bool)
    requires
        days_sorted(a),
        copied(a, b, src, f),
        copied(b, c, src, g),
    ensures
        copied(a, c, src, |k: u32| f(k) || g(k)),
{
    let h = |k: u32| f(k) || g(k);
    assert forall|k: u32| #[trigger] copied_day(a, c, src, h(k), k) by {
        assert(copied_day(a, b, src, f(k), k));
        assert(copied_day(b, c, src, g(k), k));
        if g(k) && src.data.contains_key(k) && f(k) {
            let d = day_entries(a, k);
            let e = src.data[k];
            lemma_merge_all(d, e);
            lemma_merge_all_covered(merge_all(d, e), e);
        } else if g(k) && src.data.contains_key(k) {
            assert(day_entries(b, k) == day_entries(a, k));
        }
    }
}


/// A copy reads the source's day entries only.
pub proof fn lemma_copied_same_source(a: StorageModel, b: StorageModel, s1: StorageModel, s2: StorageModel, f: spec_fn(u32) -> bool)
    requires
        copied(a, b, s1, f),
        s1.data == s2.data,
    ensures
        copied(a, b, s2, f),
{
    assert forall|k: u32| #[trigger] copied_day(a, b, s2, f(k), k) by {
        assert(copied_day(a, b, s1, f(k), k));
    }
}

} // verus!
