//! The local catalog: four ordered tables (per-year, per-month and per-day
//! digests, and the object identifiers recorded for each day) kept consistent
//! by a single mutator that merges new entries into a day and recomputes the
//! digests of that day, its month and its year.

use crate::byte_string::{bytes_equal, bytes_less, bytes_lt, copy_bytes, sha256, sha256_of};
use crate::opaque_date::{
    month_first_day, month_last_day, year_first_month, year_last_month, Year, YearMonth,
    YearMonthDay,
};
use crate::laws::{consistent, days_sorted, lemma_add_keeps_consistent, lemma_add_keeps_sorted, lemma_empty_consistent};
use crate::table::OrderedTable;
use vstd::prelude::*;

verus! {

/// An object identifier: the caller's content hash.
pub type Data = Vec<u8>;

/// A digest of the index.
pub type Checksum = Vec<u8>;

/// A label of a peer that holds an object's bytes.
pub type Peer = Vec<u8>;

/// One entry of a day as a value: an object identifier and its peer labels.
pub type EntryModel = (Seq<u8>, Seq<Seq<u8>>);

pub open spec fn peers_model(ps: Seq<Vec<u8>>) -> Seq<Seq<u8>> {
    ps.map_values(|p: Vec<u8>| p@)
}

pub open spec fn entry_model(e: (Vec<u8>, Vec<Vec<u8>>)) -> EntryModel {
    (e.0@, peers_model(e.1@))
}

pub open spec fn entries_model(es: Seq<(Vec<u8>, Vec<Vec<u8>>)>) -> Seq<EntryModel> {
    es.map_values(|e: (Vec<u8>, Vec<Vec<u8>>)| entry_model(e))
}

pub open spec fn rows_model(rows: Seq<(u32, Vec<u8>)>) -> Seq<(u32, Seq<u8>)> {
    rows.map_values(|r: (u32, Vec<u8>)| (r.0, r.1@))
}

/// `acc` extended by each label of `incoming` that it does not hold yet, in
/// the order of `incoming`.
pub open spec fn union_peers(acc: Seq<Seq<u8>>, incoming: Seq<Seq<u8>>) -> Seq<Seq<u8>>
    decreases incoming.len(),
{
    if incoming.len() == 0 {
        acc
    } else {
        let u = union_peers(acc, incoming.drop_last());
        if u.contains(incoming.last()) {
            u
        } else {
            u.push(incoming.last())
        }
    }
}

/// Where `oid` belongs in a list ascending by object identifier: the number of
/// entries that come before it.
pub open spec fn entry_position(es: Seq<EntryModel>, oid: Seq<u8>) -> int
    decreases es.len(),
{
    if es.len() == 0 {
        0
    } else if bytes_lt(es.last().0, oid) {
        es.len() as int
    } else {
        entry_position(es.drop_last(), oid)
    }
}

/// A day's entries after one incoming entry: the peers of an entry with the
/// same identifier grow by union, otherwise the entry is added in order, with
/// each of its labels once.
pub open spec fn merge_one(es: Seq<EntryModel>, oid: Seq<u8>, peers: Seq<Seq<u8>>) -> Seq<EntryModel> {
    let p = entry_position(es, oid);
    if p < es.len() && es[p].0 == oid {
        es.update(p, (oid, union_peers(es[p].1, peers)))
    } else {
        es.insert(p, (oid, union_peers(Seq::empty(), peers)))
    }
}

/// A day's entries after a batch of incoming entries, taken in order.
pub open spec fn merge_all(es: Seq<EntryModel>, incoming: Seq<EntryModel>) -> Seq<EntryModel>
    decreases incoming.len(),
{
    if incoming.len() == 0 {
        es
    } else {
        let prev = merge_all(es, incoming.drop_last());
        merge_one(prev, incoming.last().0, incoming.last().1)
    }
}

/// The object identifiers of a day's entries, concatenated in list order.
pub open spec fn ids_concat(es: Seq<EntryModel>) -> Seq<u8>
    decreases es.len(),
{
    if es.len() == 0 {
        Seq::empty()
    } else {
        ids_concat(es.drop_last()) + es.last().0
    }
}

/// The digest of a day: over its object identifiers only, never its peers.
pub open spec fn day_digest(es: Seq<EntryModel>) -> Seq<u8> {
    sha256_of(ids_concat(es))
}

/// The value under key `k`, or nothing where there is none.
pub open spec fn cell(m: Map<u32, Seq<u8>>, k: int) -> Seq<u8> {
    if 0 <= k <= u32::MAX && m.contains_key(k as u32) {
        m[k as u32]
    } else {
        Seq::empty()
    }
}

/// The values under the keys `lo..=hi` that are present, concatenated in
/// ascending key order.
pub open spec fn range_concat(m: Map<u32, Seq<u8>>, lo: int, hi: int) -> Seq<u8>
    decreases hi + 1 - lo,
{
    if hi < lo {
        Seq::empty()
    } else {
        range_concat(m, lo, hi - 1) + cell(m, hi)
    }
}

/// The digest of a month: over the digests of its days, ascending.
pub open spec fn month_digest(days: Map<u32, Seq<u8>>, ym: int) -> Seq<u8> {
    sha256_of(range_concat(days, month_first_day(ym), month_last_day(ym)))
}

/// The digest of a year: over the digests of its months, ascending.
pub open spec fn year_digest(months: Map<u32, Seq<u8>>, y: int) -> Seq<u8> {
    sha256_of(range_concat(months, year_first_month(y), year_last_month(y)))
}

/// The four tables as maps.
pub struct StorageModel {
    pub years: Map<u32, Seq<u8>>,
    pub months: Map<u32, Seq<u8>>,
    pub days: Map<u32, Seq<u8>>,
    pub data: Map<u32, Seq<EntryModel>>,
}

pub open spec fn empty_model() -> StorageModel {
    StorageModel { years: Map::empty(), months: Map::empty(), days: Map::empty(), data: Map::empty() }
}

/// The entries stored for a day, or none.
pub open spec fn day_entries(s: StorageModel, ymd: u32) -> Seq<EntryModel> {
    if s.data.contains_key(ymd) {
        s.data[ymd]
    } else {
        Seq::empty()
    }
}

/// The tables after `incoming` is added to day `ymd`: the day's entries are
/// merged, its digest set, and the digests of its month and its year
/// recomputed from the tier below.
pub open spec fn add_spec(s: StorageModel, ymd: u32, incoming: Seq<EntryModel>) -> StorageModel {
    let entries = merge_all(day_entries(s, ymd), incoming);
    let days = s.days.insert(ymd, day_digest(entries));
    let ym = (ymd / 100) as u32;
    let months = s.months.insert(ym, month_digest(days, ym as int));
    let y = (ym / 100) as u32;
    let years = s.years.insert(y, year_digest(months, y as int));
    StorageModel { years, months, days, data: s.data.insert(ymd, entries) }
}

/// Rows listing exactly the keys of `m` within `lo..=hi`, ascending, each with its value.
pub open spec fn lists_range(rows: Seq<(u32, Seq<u8>)>, m: Map<u32, Seq<u8>>, lo: int, hi: int) -> bool {
    &&& forall|i: int, j: int| 0 <= i < j < rows.len() ==> #[trigger] rows[i].0 < #[trigger] rows[j].0
    &&& forall|i: int|
        0 <= i < rows.len() ==> lo <= #[trigger] rows[i].0 <= hi && m.contains_key(rows[i].0)
            && m[rows[i].0] == rows[i].1
    &&& forall|k: u32|
        lo <= k <= hi && #[trigger] m.contains_key(k) ==> exists|i: int|
            0 <= i < rows.len() && #[trigger] rows[i].0 == k
}

/// Keys strictly ascending.
pub open spec fn keys_ascending(rows: Seq<(u32, Checksum)>) -> bool {
    forall|i: int, j: int| 0 <= i < j < rows.len() ==> #[trigger] rows[i].0 < #[trigger] rows[j].0
}

/// Rows listed in ascending order are ascending by key.
proof fn lemma_listed_rows_ascending(r: Seq<(u32, Checksum)>, m: Map<u32, Seq<u8>>, lo: int, hi: int)
    requires
        lists_range(rows_model(r), m, lo, hi),
    ensures
        keys_ascending(r),
{
    assert forall|i: int, j: int| 0 <= i < j < r.len() implies #[trigger] r[i].0 < #[trigger] r[j].0 by {
        assert(rows_model(r)[i].0 < rows_model(r)[j].0);
    }
}

/// Keys listing exactly the keys of `m` within `lo..=hi`, ascending.
pub open spec fn lists_keys(keys: Seq<u32>, m: Map<u32, Seq<u8>>, lo: int, hi: int) -> bool {
    &&& forall|i: int, j: int| 0 <= i < j < keys.len() ==> #[trigger] keys[i] < #[trigger] keys[j]
    &&& forall|i: int| 0 <= i < keys.len() ==> lo <= #[trigger] keys[i] <= hi && m.contains_key(keys[i])
    &&& forall|k: u32|
        lo <= k <= hi && #[trigger] m.contains_key(k) ==> exists|i: int|
            0 <= i < keys.len() && #[trigger] keys[i] == k
}


fn append_bytes(acc: &mut Vec<u8>, b: &Vec<u8>)
    ensures
        final(acc)@ == old(acc)@ + b@,
{
    let ghost start = acc@;
    let mut i: usize = 0;
    while i < b.len()
        invariant
            i <= b.len(),
            acc@ =~= start + b@.take(i as int),
        decreases b.len() - i,
    {
        acc.push(b[i]);
        i = i + 1;
    }
    assert(b@.take(b.len() as int) =~= b@);
}

fn copy_peers(ps: &Vec<Vec<u8>>) -> (r: Vec<Vec<u8>>)
    ensures
        peers_model(r@) == peers_model(ps@),
{
    let mut r: Vec<Vec<u8>> = Vec::with_capacity(ps.len());
    let mut i: usize = 0;
    while i < ps.len()
        invariant
            i <= ps.len(),
            r@.len() == i,
            forall|j: int| 0 <= j < i ==> #[trigger] r@[j]@ == ps@[j]@,
        decreases ps.len() - i,
    {
        r.push(copy_bytes(&ps[i]));
        i = i + 1;
    }
    assert(peers_model(r@) =~= peers_model(ps@));
    r
}

fn copy_entry(e: &(Vec<u8>, Vec<Vec<u8>>)) -> (r: (Vec<u8>, Vec<Vec<u8>>))
    ensures
        entry_model(r) == entry_model(*e),
{
    (copy_bytes(&e.0), copy_peers(&e.1))
}

fn copy_entries(es: &Vec<(Vec<u8>, Vec<Vec<u8>>)>) -> (r: Vec<(Vec<u8>, Vec<Vec<u8>>)>)
    ensures
        entries_model(r@) == entries_model(es@),
{
    let mut r: Vec<(Vec<u8>, Vec<Vec<u8>>)> = Vec::with_capacity(es.len());
    let mut i: usize = 0;
    while i < es.len()
        invariant
            i <= es.len(),
            r@.len() == i,
            forall|j: int| 0 <= j < i ==> entry_model(#[trigger] r@[j]) == entry_model(es@[j]),
        decreases es.len() - i,
    {
        r.push(copy_entry(&es[i]));
        i = i + 1;
    }
    assert(entries_model(r@) =~= entries_model(es@));
    r
}

fn contains_peer(ps: &Vec<Vec<u8>>, p: &Vec<u8>) -> (r: bool)
    ensures
        r == peers_model(ps@).contains(p@),
{
    let mut i: usize = 0;
    while i < ps.len()
        invariant
            i <= ps.len(),
            forall|j: int| 0 <= j < i ==> ps@[j]@ != p@,
        decreases ps.len() - i,
    {
        if bytes_equal(&ps[i], p) {
            assert(peers_model(ps@)[i as int] == p@);
            return true;
        }
        i = i + 1;
    }
    false
}

/// Adds to `acc` each label of `incoming` that it does not hold yet.
fn union_into(acc: &mut Vec<Vec<u8>>, incoming: &Vec<Vec<u8>>)
    ensures
        peers_model(final(acc)@) == union_peers(peers_model(old(acc)@), peers_model(incoming@)),
{
    let ghost start = peers_model(acc@);
    let mut i: usize = 0;
    while i < incoming.len()
        invariant
            i <= incoming.len(),
            peers_model(acc@) == union_peers(start, peers_model(incoming@.take(i as int))),
        decreases incoming.len() - i,
    {
        let ghost before = incoming@.take(i as int);
        assert(peers_model(incoming@.take(i + 1)).drop_last() =~= peers_model(before));
        assert(peers_model(incoming@.take(i + 1)).last() == incoming@[i as int]@);
        if !contains_peer(acc, &incoming[i]) {
            let p = copy_bytes(&incoming[i]);
            let ghost prev = acc@;
            acc.push(p);
            assert(peers_model(acc@) =~= peers_model(prev).push(p@));
        }
        i = i + 1;
    }
    assert(incoming@.take(incoming.len() as int) =~= incoming@);
}


/// Where `oid` belongs in `es`: see `entry_position`.
fn find_position(es: &Vec<(Vec<u8>, Vec<Vec<u8>>)>, oid: &Vec<u8>) -> (r: usize)
    ensures
        r as int == entry_position(entries_model(es@), oid@),
        r <= es@.len(),
{
    let ghost m = entries_model(es@);
    let mut i: usize = es.len();
    assert(m.take(i as int) =~= m);
    while i > 0 && !bytes_less(&es[i - 1].0, oid)
        invariant
            i <= es@.len(),
            m == entries_model(es@),
            entry_position(m, oid@) == entry_position(m.take(i as int), oid@),
        decreases i,
    {
        assert(m.take(i as int).drop_last() =~= m.take(i - 1));
        i = i - 1;
    }
    if i == 0 {
        assert(m.take(0).len() == 0);
    }
    i
}

/// Merges one incoming entry into a day's entries.
fn merge_photo(es: &mut Vec<(Vec<u8>, Vec<Vec<u8>>)>, photo: &(Vec<u8>, Vec<Vec<u8>>))
    ensures
        entries_model(final(es)@) == merge_one(entries_model(old(es)@), photo.0@, peers_model(photo.1@)),
{
    let ghost m = entries_model(es@);
    let p = find_position(es, &photo.0);
    if p < es.len() && bytes_equal(&es[p].0, &photo.0) {
        let mut peers = copy_peers(&es[p].1);
        union_into(&mut peers, &photo.1);
        es.set(p, (copy_bytes(&photo.0), peers));
        assert(entries_model(es@) =~= m.update(p as int, (photo.0@, union_peers(m[p as int].1, peers_model(photo.1@)))));
    } else {
        let mut peers: Vec<Vec<u8>> = Vec::new();
        assert(peers_model(peers@) =~= Seq::<Seq<u8>>::empty());
        union_into(&mut peers, &photo.1);
        es.insert(p, (copy_bytes(&photo.0), peers));
        assert(entries_model(es@) =~= m.insert(p as int, (photo.0@, union_peers(Seq::empty(), peers_model(photo.1@)))));
    }
}

/// Merges a batch of incoming entries, in order, into a day's entries.
fn merge_photos(es: &mut Vec<(Vec<u8>, Vec<Vec<u8>>)>, photos: &[(Vec<u8>, Vec<Vec<u8>>)])
    ensures
        entries_model(final(es)@) == merge_all(entries_model(old(es)@), entries_model(photos@)),
{
    let ghost start = entries_model(es@);
    let mut i: usize = 0;
    while i < photos.len()
        invariant
            i <= photos@.len(),
            entries_model(es@) == merge_all(start, entries_model(photos@.take(i as int))),
        decreases photos@.len() - i,
    {
        let ghost next = entries_model(photos@.take(i + 1));
        assert(next.drop_last() =~= entries_model(photos@.take(i as int)));
        assert(next.last() == entry_model(photos@[i as int]));
        merge_photo(es, &photos[i]);
        i = i + 1;
    }
    assert(photos@.take(photos@.len() as int) =~= photos@);
}

/// The digest of a day's entries.
fn calc_photos_checksum(es: &Vec<(Vec<u8>, Vec<Vec<u8>>)>) -> (r: Checksum)
    ensures
        r@ == day_digest(entries_model(es@)),
        r@.len() == 32,
{
    let ghost m = entries_model(es@);
    let mut ids: Vec<u8> = Vec::new();
    let mut i: usize = 0;
    while i < es.len()
        invariant
            i <= es@.len(),
            m == entries_model(es@),
            ids@ == ids_concat(m.take(i as int)),
        decreases es@.len() - i,
    {
        assert(m.take(i + 1).drop_last() =~= m.take(i as int));
        append_bytes(&mut ids, &es[i].0);
        i = i + 1;
    }
    assert(m.take(es@.len() as int) =~= m);
    sha256(&ids)
}

pub open spec fn digest_map(t: Map<u32, Vec<u8>>) -> Map<u32, Seq<u8>> {
    t.map_values(|v: Vec<u8>| v@)
}

/// The digest over the values under `lo..=hi` that are present, in ascending key order.
fn range_digest(t: &OrderedTable<Vec<u8>>, lo: u32, hi: u32) -> (r: Checksum)
    requires
        t.wf(),
    ensures
        r@ == sha256_of(range_concat(digest_map(t.view()), lo as int, hi as int)),
{
    let ghost m = digest_map(t.view());
    let mut acc: Vec<u8> = Vec::new();
    let mut k: u64 = lo as u64;
    while k <= hi as u64
        invariant
            t.wf(),
            m == digest_map(t.view()),
            lo <= k <= hi as u64 + 1 || (k == lo && lo > hi),
            acc@ == range_concat(m, lo as int, k - 1),
        decreases hi as u64 + 1 - k,
    {
        match t.get(k as u32) {
            Some(v) => {
                append_bytes(&mut acc, v);
            },
            None => {},
        }
        k = k + 1;
    }
    sha256(&acc)
}

/// The rows of `t` whose keys lie in `lo..=hi`, ascending, with copies of their values.
fn digest_rows_in_range(t: &OrderedTable<Vec<u8>>, lo: u32, hi: u32) -> (r: Vec<(u32, Checksum)>)
    requires
        t.wf(),
    ensures
        lists_range(rows_model(r@), digest_map(t.view()), lo as int, hi as int),
{
    let ghost m = digest_map(t.view());
    let mut r: Vec<(u32, Vec<u8>)> = Vec::new();
    let mut i: usize = 0;
    while i < t.rows.len()
        invariant
            t.wf(),
            m == digest_map(t.view()),
            i <= t.rows@.len(),
            forall|a: int, b: int| 0 <= a < b < r@.len() ==> #[trigger] r@[a].0 < #[trigger] r@[b].0,
            forall|a: int|
                0 <= a < r@.len() ==> lo <= #[trigger] r@[a].0 <= hi && m.contains_key(r@[a].0)
                    && m[r@[a].0] == r@[a].1@,
            forall|a: int, j: int| 0 <= a < r@.len() && i <= j < t.rows@.len() ==> #[trigger] r@[a].0 < #[trigger] t.rows@[j].0,
            forall|j: int| 0 <= j < i && lo <= #[trigger] t.rows@[j].0 <= hi ==> exists|a: int|
                0 <= a < r@.len() && #[trigger] r@[a].0 == t.rows@[j].0,
        decreases t.rows@.len() - i,
    {
        let key = t.rows[i].0;
        if lo <= key && key <= hi {
            let v = copy_bytes(&t.rows[i].1);
            let ghost prev = r@;
            r.push((key, v));
            assert forall|j: int| 0 <= j < i + 1 && lo <= #[trigger] t.rows@[j].0 <= hi implies exists|a: int|
                0 <= a < r@.len() && #[trigger] r@[a].0 == t.rows@[j].0 by {
                if j == i {
                    assert(r@[prev.len() as int].0 == t.rows@[j].0);
                } else {
                    let a = choose|a: int| 0 <= a < prev.len() && #[trigger] prev[a].0 == t.rows@[j].0;
                    assert(r@[a].0 == t.rows@[j].0);
                }
            }
        }
        i = i + 1;
    }
    let ghost rm = rows_model(r@);
    assert forall|k: u32| lo <= k <= hi && #[trigger] m.contains_key(k) implies exists|a: int|
        0 <= a < rm.len() && #[trigger] rm[a].0 == k by {
        let j = choose|j: int| 0 <= j < t.rows@.len() && #[trigger] t.rows@[j].0 == k;
        let a = choose|a: int| 0 <= a < r@.len() && #[trigger] r@[a].0 == t.rows@[j].0;
        assert(rm[a].0 == k);
    }
    r
}


/// The keys of `t` that lie in `lo..=hi`, ascending.
fn digest_keys_in_range(t: &OrderedTable<Vec<u8>>, lo: u32, hi: u32) -> (r: Vec<u32>)
    requires
        t.wf(),
    ensures
        lists_keys(r@, digest_map(t.view()), lo as int, hi as int),
{
    let ghost m = digest_map(t.view());
    let mut r: Vec<u32> = Vec::new();
    let mut i: usize = 0;
    while i < t.rows.len()
        invariant
            t.wf(),
            m == digest_map(t.view()),
            i <= t.rows@.len(),
            forall|a: int, b: int| 0 <= a < b < r@.len() ==> #[trigger] r@[a] < #[trigger] r@[b],
            forall|a: int| 0 <= a < r@.len() ==> lo <= #[trigger] r@[a] <= hi && m.contains_key(r@[a]),
            forall|a: int, j: int| 0 <= a < r@.len() && i <= j < t.rows@.len() ==> #[trigger] r@[a] < #[trigger] t.rows@[j].0,
            forall|j: int| 0 <= j < i && lo <= #[trigger] t.rows@[j].0 <= hi ==> exists|a: int|
                0 <= a < r@.len() && #[trigger] r@[a] == t.rows@[j].0,
        decreases t.rows@.len() - i,
    {
        let key = t.rows[i].0;
        if lo <= key && key <= hi {
            let ghost prev = r@;
            r.push(key);
            assert forall|j: int| 0 <= j < i + 1 && lo <= #[trigger] t.rows@[j].0 <= hi implies exists|a: int|
                0 <= a < r@.len() && #[trigger] r@[a] == t.rows@[j].0 by {
                if j == i {
                    assert(r@[prev.len() as int] == t.rows@[j].0);
                } else {
                    let a = choose|a: int| 0 <= a < prev.len() && #[trigger] prev[a] == t.rows@[j].0;
                    assert(r@[a] == t.rows@[j].0);
                }
            }
        }
        i = i + 1;
    }
    assert forall|k: u32| lo <= k <= hi && #[trigger] m.contains_key(k) implies exists|a: int|
        0 <= a < r@.len() && #[trigger] r@[a] == k by {
        let j = choose|j: int| 0 <= j < t.rows@.len() && #[trigger] t.rows@[j].0 == k;
        let a = choose|a: int| 0 <= a < r@.len() && #[trigger] r@[a] == t.rows@[j].0;
    }
    r
}

/// The local part of the catalog: object identifiers partitioned by year, month
/// and day, each tier summarised by digests of the tier below. Peers' labels
/// are kept with each identifier but never enter a digest.
pub struct LocalStorage {
    years: OrderedTable<Checksum>,
    months: OrderedTable<Checksum>,
    days: OrderedTable<Checksum>,
    data: OrderedTable<Vec<(Data, Vec<Peer>)>>,
}

impl View for LocalStorage {
    type V = StorageModel;

    closed spec fn view(&self) -> StorageModel {
        StorageModel {
            years: digest_map(self.years.view()),
            months: digest_map(self.months.view()),
            days: digest_map(self.days.view()),
            data: self.data.view().map_values(|es: Vec<(Vec<u8>, Vec<Vec<u8>>)>| entries_model(es@)),
        }
    }
}

impl LocalStorage {
    pub closed spec fn wf(&self) -> bool {
        &&& self.years.wf()
        &&& self.months.wf()
        &&& self.days.wf()
        &&& self.data.wf()
        &&& consistent(self@)
        &&& days_sorted(self@)
    }

    /// A well-formed storage has every tier determined by the tier below and
    /// every day's entries strictly ascending by identifier.
    pub proof fn lemma_wf(&self)
        requires
            self.wf(),
        ensures
            consistent(self@),
            days_sorted(self@),
    {
    }

    /// An empty storage, held in memory.
    pub fn test_new() -> (r: Self)
        ensures
            r.wf(),
            r@ == empty_model(),
    {
        let r = LocalStorage {
            years: OrderedTable::new(),
            months: OrderedTable::new(),
            days: OrderedTable::new(),
            data: OrderedTable::new(),
        };
        assert(r@.years =~= Map::empty());
        assert(r@.months =~= Map::empty());
        assert(r@.days =~= Map::empty());
        assert(r@.data =~= Map::empty());
        proof {
            lemma_empty_consistent();
        }
        r
    }

    /// Every year with its digest, ascending by year.
    pub fn get_years_checksums(&self) -> (r: Vec<(Year, Checksum)>)
        requires
            self.wf(),
        ensures
            lists_range(rows_model(r@), self@.years, 0, u32::MAX as int),
            keys_ascending(r@),
    {
        let r = digest_rows_in_range(&self.years, 0, u32::MAX);
        proof {
            lemma_listed_rows_ascending(r@, self@.years, 0 as int, u32::MAX as int);
        }
        r
    }

    /// The months of year `y` with their digests, ascending.
    pub fn get_months_checksum(&self, y: Year) -> (r: Vec<(YearMonth, Checksum)>)
        requires
            self.wf(),
            year_last_month(y as int) <= u32::MAX,
        ensures
            lists_range(rows_model(r@), self@.months, year_first_month(y as int), year_last_month(y as int)),
            keys_ascending(r@),
    {
        let r = digest_rows_in_range(&self.months, y * 100 + 1, y * 100 + 12);
        proof {
            lemma_listed_rows_ascending(r@, self@.months, y * 100 + 1 as int, y * 100 + 12 as int);
        }
        r
    }

    /// The days of month `ym` with their digests, ascending.
    pub fn get_days_checksum(&self, ym: YearMonth) -> (r: Vec<(YearMonthDay, Checksum)>)
        requires
            self.wf(),
            month_last_day(ym as int) <= u32::MAX,
        ensures
            lists_range(rows_model(r@), self@.days, month_first_day(ym as int), month_last_day(ym as int)),
            keys_ascending(r@),
    {
        let r = digest_rows_in_range(&self.days, ym * 100 + 1, ym * 100 + 31);
        proof {
            lemma_listed_rows_ascending(r@, self@.days, ym * 100 + 1 as int, ym * 100 + 31 as int);
        }
        r
    }

    /// The days in `ymd_from..=ymd_to` that hold entries, ascending.
    pub fn get_existing_days_in_range(&self, ymd_from: YearMonthDay, ymd_to: YearMonthDay) -> (r: Vec<YearMonthDay>)
        requires
            self.wf(),
        ensures
            lists_keys(r@, self@.days, ymd_from as int, ymd_to as int),
    {
        digest_keys_in_range(&self.days, ymd_from, ymd_to)
    }

    /// The entries of day `ymd`, if it has any.
    pub fn get_photos(&self, ymd: YearMonthDay) -> (r: Option<Vec<(Data, Vec<Peer>)>>)
        requires
            self.wf(),
        ensures
            match r {
                Some(v) => self@.data.contains_key(ymd) && entries_model(v@) == self@.data[ymd],
                None => !self@.data.contains_key(ymd),
            },
    {
        match self.data.get(ymd) {
            Some(es) => Some(copy_entries(es)),
            None => None,
        }
    }

    /// Adds entries to day `ymd`: an identifier already there gains the new
    /// peers, a new one is added in order. The digests of the day, its month
    /// and its year are recomputed. Returns the day's new digest.
    pub fn add_photos_to_day(&mut self, ymd: YearMonthDay, new_photos: &[(Data, Vec<Peer>)]) -> (r: Checksum)
        requires
            old(self).wf(),
        ensures
            final(self).wf(),
            final(self)@ == add_spec(old(self)@, ymd, entries_model(new_photos@)),
            r@ == final(self)@.days[ymd],
            r@.len() == 32,
    {
        let ghost s = self@;
        let mut photos: Vec<(Data, Vec<Peer>)> = match self.data.get(ymd) {
            Some(es) => copy_entries(es),
            None => Vec::new(),
        };
        assert(entries_model(photos@) =~= day_entries(s, ymd));
        merge_photos(&mut photos, new_photos);
        let ghost entries = entries_model(photos@);
        let day_checksum = calc_photos_checksum(&photos);
        let result = copy_bytes(&day_checksum);
        self.data.insert(ymd, photos);
        self.days.insert(ymd, day_checksum);
        let ghost days = s.days.insert(ymd, day_digest(entries));
        assert(digest_map(self.days.view()) =~= days);

        let ym = ymd / 100;
        assert(ym * 100 + 31 <= u32::MAX) by (nonlinear_arith)
            requires ym == ymd / 100, ymd <= u32::MAX;
        let month_checksum = range_digest(&self.days, ym * 100 + 1, ym * 100 + 31);
        self.months.insert(ym, month_checksum);
        let ghost months = s.months.insert(ym, month_digest(days, ym as int));
        assert(digest_map(self.months.view()) =~= months);

        let y = ym / 100;
        assert(y * 100 + 12 <= u32::MAX) by (nonlinear_arith)
            requires y == ym / 100, ym <= u32::MAX;
        let year_checksum = range_digest(&self.months, y * 100 + 1, y * 100 + 12);
        self.years.insert(y, year_checksum);
        assert(digest_map(self.years.view()) =~= s.years.insert(y, year_digest(months, y as int)));
        assert(self@.data =~= s.data.insert(ymd, entries));
        proof {
            lemma_add_keeps_consistent(s, ymd, entries_model(new_photos@));
            lemma_add_keeps_sorted(s, ymd, entries_model(new_photos@));
        }
        result
    }
}

} // verus!
