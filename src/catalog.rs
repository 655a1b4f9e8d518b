//! A catalog node: a local storage that reconciles with its peers by comparing
//! the digest tiers top-down and exchanging only the days on which they differ.

use crate::laws::{
    consistent, copied, copied_day, day_covered, days_sorted, grows, lemma_copied_add, lemma_copied_compose,
    lemma_copied_congruent, lemma_copied_none, lemma_copied_same_source, lemma_add_grows, lemma_covered_from_earlier,
    lemma_day_covered_grows, lemma_grows_reflexive, lemma_grows_transitive, lemma_year_of_day,
};
use crate::local_storage::{
    add_spec, day_entries, entries_model, keys_ascending, lists_keys, lists_range, merge_all, rows_model, Checksum, Data,
    LocalStorage, Peer, StorageModel,
};
use crate::opaque_date::{
    lemma_day_in_month_range, lemma_month_in_year_range, month_first_day, month_last_day, year_first_day, year_first_month, year_last_day,
    year_last_month, ymd_interval_for_y, ymd_interval_for_ym, Year, YearMonth, YearMonthDay,
};
use vstd::prelude::*;
use vstd::string::{StrSliceExecFns, StringSliceAdditionalSpecFns};

verus! {

/// Why a synchronisation, or a request to a peer, failed.
#[derive(Debug, PartialEq, Eq, Structural, Clone, Copy)]
pub enum DistStoreError {
    /// A synchronisation of this node is already running.
    SyncInProcess,
    /// A peer failed to answer a request.
    PeerFailure,
}

/// Whether some row among the first `n` has key `k`.
pub open spec fn has_key(rows: Seq<(u32, Checksum)>, k: u32, n: int) -> bool {
    exists|i: int| 0 <= i < n && #[trigger] rows[i].0 == k
}

/// Whether `k` is a key of both lists with different digests.
pub open spec fn differs_at(local: Seq<(u32, Checksum)>, remote: Seq<(u32, Checksum)>, k: u32, nl: int, nr: int) -> bool {
    exists|i: int, j: int|
        0 <= i < nl && 0 <= j < nr && #[trigger] local[i].0 == k && #[trigger] remote[j].0 == k
            && local[i].1@ != remote[j].1@
}

/// Keys strictly ascending.
pub open spec fn strictly_ascending(s: Seq<u32>) -> bool {
    forall|i: int, j: int| 0 <= i < j < s.len() ==> #[trigger] s[i] < #[trigger] s[j]
}

/// A partner that this node reconciles with: it answers the tier queries of
/// its own catalog, hands out a day's entries and accepts proposed entries.
/// Its contract is stated over `catalog()`, the tables that the partner holds.
pub trait RemotePeer {
    /// What the peer keeps true between calls.
    spec fn inv(&self) -> bool;

    /// The partner's tables.
    spec fn catalog(&self) -> StorageModel;

    /// The partner's tiers are determined by its days, whose entries are
    /// strictly ascending by identifier.
    proof fn lemma_catalog(&self)
        requires
            self.inv(),
        ensures
            consistent(self.catalog()),
            days_sorted(self.catalog());

    /// The peer's identifier; it does not change between sessions.
    fn id(&self) -> Vec<u8>;

    /// Tells the peer that the node with identifier `peer_id` has added it.
    fn notify_added_by(&self, peer_id: &Vec<u8>);

    /// Every year with its digest, ascending by year.
    fn get_years_checksums(&self) -> (r: Result<Vec<(Year, Checksum)>, DistStoreError>)
        requires
            self.inv(),
        ensures
            r is Ok ==> keys_ascending(r->Ok_0@),
            r is Ok ==> lists_range(rows_model(r->Ok_0@), self.catalog().years, 0, u32::MAX as int);

    /// The months of year `y` with their digests, ascending.
    fn get_months_checksum(&self, y: Year) -> (r: Result<Vec<(YearMonth, Checksum)>, DistStoreError>)
        requires
            self.inv(),
            year_last_month(y as int) <= u32::MAX,
        ensures
            r is Ok ==> keys_ascending(r->Ok_0@),
            r is Ok ==> lists_range(rows_model(r->Ok_0@), self.catalog().months, year_first_month(y as int), year_last_month(y as int));

    /// The days of month `ym` with their digests, ascending.
    fn get_days_checksum(&self, ym: YearMonth) -> (r: Result<Vec<(YearMonthDay, Checksum)>, DistStoreError>)
        requires
            self.inv(),
            month_last_day(ym as int) <= u32::MAX,
        ensures
            r is Ok ==> keys_ascending(r->Ok_0@),
            r is Ok ==> lists_range(rows_model(r->Ok_0@), self.catalog().days, month_first_day(ym as int), month_last_day(ym as int));

    /// The days in `ymd_from..=ymd_to` that hold entries, ascending.
    fn get_existing_days_in_range(&self, ymd_from: YearMonthDay, ymd_to: YearMonthDay) -> (r: Result<Vec<YearMonthDay>, DistStoreError>)
        requires
            self.inv(),
        ensures
            r is Ok ==> lists_keys(r->Ok_0@, self.catalog().days, ymd_from as int, ymd_to as int);

    /// The entries of a day, each identifier with the peers that hold its bytes.
    fn get_data(&self, ymd: YearMonthDay) -> (r: Result<Option<Vec<(Data, Vec<Peer>)>>, DistStoreError>)
        requires
            self.inv(),
        ensures
            r matches Ok(Some(v)) ==> self.catalog().data.contains_key(ymd) && entries_model(v@) == self.catalog().data[ymd],
            r matches Ok(None) ==> !self.catalog().data.contains_key(ymd);

    /// Offers entries for a day: they are added as `LocalStorage::add_photos_to_day`
    /// adds them, and the resulting day digest is returned. A failed proposal
    /// changes nothing.
    fn propose(&mut self, ymd: YearMonthDay, data: &[(Data, Vec<Peer>)]) -> (r: Result<Checksum, DistStoreError>)
        requires
            old(self).inv(),
        ensures
            final(self).inv(),
            r is Ok ==> final(self).catalog() == add_spec(old(self).catalog(), ymd, entries_model(data@)),
            r is Ok ==> r->Ok_0@ == final(self).catalog().days[ymd],
            r is Err ==> final(self).catalog() == old(self).catalog();
}

/// Compares two lists of `(key, digest)` rows, each strictly ascending by key.
/// Returns the keys only in `remote`, the keys only in `local`, and the keys
/// in both whose digests differ; each list ascending.
pub fn calc_diff(local: &[(u32, Checksum)], remote: &[(u32, Checksum)]) -> (r: (Vec<u32>, Vec<u32>, Vec<u32>))
    ensures
        r.0@.len() + r.1@.len() + r.2@.len() <= local@.len() + remote@.len(),
        keys_ascending(local@) && keys_ascending(remote@) ==> {
            &&& strictly_ascending(r.0@)
            &&& strictly_ascending(r.1@)
            &&& strictly_ascending(r.2@)
            &&& forall|k: u32| #[trigger] r.0@.contains(k) <==> has_key(remote@, k, remote@.len() as int) && !has_key(local@, k, local@.len() as int)
            &&& forall|k: u32| #[trigger] r.1@.contains(k) <==> has_key(local@, k, local@.len() as int) && !has_key(remote@, k, remote@.len() as int)
            &&& forall|k: u32| #[trigger] r.2@.contains(k) <==> differs_at(local@, remote@, k, local@.len() as int, remote@.len() as int)
        },
{
    let ghost l = local@;
    let ghost rm = remote@;
    let ghost sorted = keys_ascending(l) && keys_ascending(rm);
    let mut missing_on_local: Vec<u32> = Vec::new();
    let mut missing_on_remote: Vec<u32> = Vec::new();
    let mut different: Vec<u32> = Vec::new();
    let mut li: usize = 0;
    let mut ri: usize = 0;
    while li < local.len() || ri < remote.len()
        invariant
            l == local@,
            rm == remote@,
            sorted == (keys_ascending(l) && keys_ascending(rm)),
            li <= l.len(),
            ri <= rm.len(),
            missing_on_local@.len() + missing_on_remote@.len() + different@.len() <= li + ri,
            sorted ==> (forall|a: int, b: int| 0 <= a < li && ri <= b < rm.len() ==> #[trigger] l[a].0 < #[trigger] rm[b].0),
            sorted ==> (forall|a: int, b: int| 0 <= b < ri && li <= a < l.len() ==> #[trigger] rm[b].0 < #[trigger] l[a].0),
            sorted ==> (strictly_ascending(missing_on_local@)),
            sorted ==> (strictly_ascending(missing_on_remote@)),
            sorted ==> (strictly_ascending(different@)),
            sorted ==> (forall|t: int, a: int| 0 <= t < missing_on_local@.len() && li <= a < l.len() ==> #[trigger] missing_on_local@[t] < #[trigger] l[a].0),
            sorted ==> (forall|t: int, b: int| 0 <= t < missing_on_local@.len() && ri <= b < rm.len() ==> #[trigger] missing_on_local@[t] < #[trigger] rm[b].0),
            sorted ==> (forall|t: int, a: int| 0 <= t < missing_on_remote@.len() && li <= a < l.len() ==> #[trigger] missing_on_remote@[t] < #[trigger] l[a].0),
            sorted ==> (forall|t: int, b: int| 0 <= t < missing_on_remote@.len() && ri <= b < rm.len() ==> #[trigger] missing_on_remote@[t] < #[trigger] rm[b].0),
            sorted ==> (forall|t: int, a: int| 0 <= t < different@.len() && li <= a < l.len() ==> #[trigger] different@[t] < #[trigger] l[a].0),
            sorted ==> (forall|t: int, b: int| 0 <= t < different@.len() && ri <= b < rm.len() ==> #[trigger] different@[t] < #[trigger] rm[b].0),
            sorted ==> (forall|k: u32| #[trigger] missing_on_local@.contains(k) <==> has_key(rm, k, ri as int) && !has_key(l, k, l.len() as int)),
            sorted ==> (forall|k: u32| #[trigger] missing_on_remote@.contains(k) <==> has_key(l, k, li as int) && !has_key(rm, k, rm.len() as int)),
            sorted ==> (forall|k: u32| #[trigger] different@.contains(k) <==> differs_at(l, rm, k, li as int, ri as int)),
        decreases l.len() - li + rm.len() - ri,
    {
        if ri >= remote.len() || (li < local.len() && local[li].0 < remote[ri].0) {
            let k = local[li].0;
            let ghost prev = missing_on_remote@;
            missing_on_remote.push(k);
            proof {
                if sorted {
                    assert(!has_key(rm, k, rm.len() as int)) by {
                        if has_key(rm, k, rm.len() as int) {
                            let b = choose|b: int| 0 <= b < rm.len() && #[trigger] rm[b].0 == k;
                            if b < ri {
                                assert(rm[b].0 < l[li as int].0);
                            } else if b > ri {
                                assert(rm[ri as int].0 < rm[b].0);
                            }
                        }
                    }
                    assert forall|kk: u32| #[trigger] missing_on_remote@.contains(kk) <==> has_key(l, kk, li + 1) && !has_key(rm, kk, rm.len() as int) by {
                        if has_key(l, kk, li + 1) && kk != k {
                            let a = choose|a: int| 0 <= a < li + 1 && #[trigger] l[a].0 == kk;
                            assert(has_key(l, kk, li as int));
                        }
                        if prev.contains(kk) || kk == k {
                            if kk == k {
                                assert(missing_on_remote@[prev.len() as int] == k);
                                assert(l[li as int].0 == k);
                            } else {
                                let t = choose|t: int| 0 <= t < prev.len() && prev[t] == kk;
                                assert(missing_on_remote@[t] == kk);
                            }
                        }
                        if missing_on_remote@.contains(kk) {
                            let t = choose|t: int| 0 <= t < missing_on_remote@.len() && missing_on_remote@[t] == kk;
                            if t < prev.len() {
                                assert(prev.contains(kk));
                            }
                        }
                    }
                    assert forall|kk: u32| #[trigger] missing_on_local@.contains(kk) implies !has_key(l, kk, l.len() as int) by {}
                    assert forall|kk: u32| #[trigger] different@.contains(kk) <==> differs_at(l, rm, kk, li + 1, ri as int) by {
                        if differs_at(l, rm, kk, li + 1, ri as int) {
                            let (a, b) = choose|a: int, b: int| 0 <= a < li + 1 && 0 <= b < ri && #[trigger] l[a].0 == kk && #[trigger] rm[b].0 == kk && l[a].1@ != rm[b].1@;
                            if a == li {
                                assert(rm[b].0 < l[a].0);
                            }
                            assert(differs_at(l, rm, kk, li as int, ri as int));
                        }
                    }
                }
            }
            li = li + 1;
        } else if li >= local.len() || local[li].0 > remote[ri].0 {
            let k = remote[ri].0;
            let ghost prev = missing_on_local@;
            missing_on_local.push(k);
            proof {
                if sorted {
                    assert(!has_key(l, k, l.len() as int)) by {
                        if has_key(l, k, l.len() as int) {
                            let a = choose|a: int| 0 <= a < l.len() && #[trigger] l[a].0 == k;
                            if a < li {
                                assert(l[a].0 < rm[ri as int].0);
                            } else if a > li {
                                assert(l[li as int].0 < l[a].0);
                            }
                        }
                    }
                    assert forall|kk: u32| #[trigger] missing_on_local@.contains(kk) <==> has_key(rm, kk, ri + 1) && !has_key(l, kk, l.len() as int) by {
                        if has_key(rm, kk, ri + 1) && kk != k {
                            let b = choose|b: int| 0 <= b < ri + 1 && #[trigger] rm[b].0 == kk;
                            assert(has_key(rm, kk, ri as int));
                        }
                        if prev.contains(kk) || kk == k {
                            if kk == k {
                                assert(missing_on_local@[prev.len() as int] == k);
                                assert(rm[ri as int].0 == k);
                            } else {
                                let t = choose|t: int| 0 <= t < prev.len() && prev[t] == kk;
                                assert(missing_on_local@[t] == kk);
                            }
                        }
                        if missing_on_local@.contains(kk) {
                            let t = choose|t: int| 0 <= t < missing_on_local@.len() && missing_on_local@[t] == kk;
                            if t < prev.len() {
                                assert(prev.contains(kk));
                            }
                        }
                    }
                    assert forall|kk: u32| #[trigger] different@.contains(kk) <==> differs_at(l, rm, kk, li as int, ri + 1) by {
                        if differs_at(l, rm, kk, li as int, ri + 1) {
                            let (a, b) = choose|a: int, b: int| 0 <= a < li && 0 <= b < ri + 1 && #[trigger] l[a].0 == kk && #[trigger] rm[b].0 == kk && l[a].1@ != rm[b].1@;
                            if b == ri {
                                assert(l[a].0 < rm[b].0);
                            }
                            assert(differs_at(l, rm, kk, li as int, ri as int));
                        }
                    }
                }
            }
            ri = ri + 1;
        } else {
            let k = local[li].0;
            let unequal = !crate::byte_string::bytes_equal(&local[li].1, &remote[ri].1);
            let ghost prev = different@;
            if unequal {
                different.push(k);
            }
            proof {
                if sorted {
                    assert forall|kk: u32| #[trigger] different@.contains(kk) <==> differs_at(l, rm, kk, li + 1, ri + 1) by {
                        if differs_at(l, rm, kk, li + 1, ri + 1) {
                            let (a, b) = choose|a: int, b: int| 0 <= a < li + 1 && 0 <= b < ri + 1 && #[trigger] l[a].0 == kk && #[trigger] rm[b].0 == kk && l[a].1@ != rm[b].1@;
                            if a == li && b < ri {
                                assert(rm[b].0 < l[a].0);
                            } else if b == ri && a < li {
                                assert(l[a].0 < rm[b].0);
                            } else if a == li && b == ri {
                                assert(different@[different@.len() - 1] == kk);
                            } else {
                                assert(differs_at(l, rm, kk, li as int, ri as int));
                                assert(prev.contains(kk));
                                let t = choose|t: int| 0 <= t < prev.len() && prev[t] == kk;
                                assert(different@[t] == kk);
                            }
                        }
                        if different@.contains(kk) {
                            let t = choose|t: int| 0 <= t < different@.len() && different@[t] == kk;
                            if t < prev.len() {
                                assert(prev.contains(kk));
                            } else {
                                assert(l[li as int].0 == kk && rm[ri as int].0 == kk);
                            }
                        }
                    }
                    assert forall|kk: u32| #[trigger] missing_on_local@.contains(kk) <==> has_key(rm, kk, ri + 1) && !has_key(l, kk, l.len() as int) by {
                        if has_key(rm, kk, ri + 1) && kk != k {
                            let b = choose|b: int| 0 <= b < ri + 1 && #[trigger] rm[b].0 == kk;
                            assert(has_key(rm, kk, ri as int));
                        }
                        if kk == k {
                            assert(l[li as int].0 == k);
                        }
                    }
                    assert forall|kk: u32| #[trigger] missing_on_remote@.contains(kk) <==> has_key(l, kk, li + 1) && !has_key(rm, kk, rm.len() as int) by {
                        if has_key(l, kk, li + 1) && kk != k {
                            let a = choose|a: int| 0 <= a < li + 1 && #[trigger] l[a].0 == kk;
                            assert(has_key(l, kk, li as int));
                        }
                        if kk == k {
                            assert(rm[ri as int].0 == k);
                        }
                    }
                }
            }
            li = li + 1;
            ri = ri + 1;
        }
    }
    (missing_on_local, missing_on_remote, different)
}


/// The tier that a list of keys belongs to: years or year-months.
#[derive(Debug, PartialEq, Eq, Structural, Clone, Copy)]
pub enum DatePartition {
    Year,
    YearMonth,
}

/// The bounds of the day keys under `d` in its tier, where they fit in a `u32`:
/// a key whose days would lie beyond `u32::MAX` has no days.
pub fn day_interval(d: u32, partition: DatePartition) -> (r: Option<(YearMonthDay, YearMonthDay)>)
    ensures
        match partition {
            DatePartition::Year => match r {
                Some(iv) => year_last_day(d as int) <= u32::MAX && iv.0 == d * 10000 + 101 && iv.1 == d * 10000 + 1231,
                None => year_last_day(d as int) > u32::MAX,
            },
            DatePartition::YearMonth => match r {
                Some(iv) => month_last_day(d as int) <= u32::MAX && iv.0 == d * 100 + 1 && iv.1 == d * 100 + 31,
                None => month_last_day(d as int) > u32::MAX,
            },
        },
{
    match partition {
        DatePartition::Year => {
            if d <= 429496 {
                Some(ymd_interval_for_y(d))
            } else {
                None
            }
        },
        DatePartition::YearMonth => {
            if d <= 42949672 {
                Some(ymd_interval_for_ym(d))
            } else {
                None
            }
        },
    }
}

/// Whether day key `ymd` lies in the interval of days under `d` in its tier.
pub open spec fn in_partition(d: u32, partition: DatePartition, ymd: u32) -> bool {
    match partition {
        DatePartition::Year => year_first_day(d as int) <= ymd <= year_last_day(d as int),
        DatePartition::YearMonth => month_first_day(d as int) <= ymd <= month_last_day(d as int),
    }
}

/// Day `k` holds the same entries in `a` and `b`, or is absent from both.
pub open spec fn same_day(a: StorageModel, b: StorageModel, k: u32) -> bool {
    &&& a.data.contains_key(k) == b.data.contains_key(k)
    &&& a.data.contains_key(k) ==> a.data[k] == b.data[k]
}

/// Whether the days under key `d` of its tier have keys that fit in a `u32`.
pub open spec fn fits_u32(d: u32, partition: DatePartition) -> bool {
    match partition {
        DatePartition::Year => year_last_day(d as int) <= u32::MAX,
        DatePartition::YearMonth => month_last_day(d as int) <= u32::MAX,
    }
}

/// Copies, from `src` to `dst`, every day that `src` holds under each of `dates`.
/// `dst` loses nothing; on success it holds every entry of each such day of
/// `src`, with at least its peers. With no date whose days fit in a `u32`
/// (in particular with no dates), no peer is asked and nothing changes. Days
/// under none of `dates` are left as they were.
pub fn fill_gaps<S: RemotePeer, D: RemotePeer>(src: &S, dst: &mut D, dates: Vec<u32>, partition: DatePartition) -> (r: Result<(), DistStoreError>)
    requires
        src.inv(),
        old(dst).inv(),
    ensures
        final(dst).inv(),
        grows(old(dst).catalog(), final(dst).catalog()),
        r is Ok ==> forall|i: int, ymd: u32| 0 <= i < dates@.len() && in_partition(#[trigger] dates@[i], partition, ymd) && #[trigger] src.catalog().days.contains_key(ymd)
            ==> day_covered(src.catalog(), final(dst).catalog(), ymd),
        (forall|i: int| 0 <= i < dates@.len() ==> !fits_u32(#[trigger] dates@[i], partition))
            ==> r is Ok && final(dst).catalog() == old(dst).catalog(),
        forall|k: u32| (forall|i: int| 0 <= i < dates@.len() ==> !in_partition(#[trigger] dates@[i], partition, k))
            ==> #[trigger] same_day(old(dst).catalog(), final(dst).catalog(), k),
        r is Ok ==> copied(old(dst).catalog(), final(dst).catalog(), src.catalog(),
            |k: u32| exists|i: int| 0 <= i < dates@.len() && in_partition(dates@[i], partition, k)),
{
    let ghost start = dst.catalog();
    proof {
        lemma_grows_reflexive(start);
        dst.lemma_catalog();
        src.lemma_catalog();
        lemma_copied_none(start, src.catalog());
        lemma_copied_congruent(start, start, src.catalog(), |k: u32| false,
            |k: u32| exists|j: int| 0 <= j < 0 && in_partition(dates@[j], partition, k));
    }
    let mut i: usize = 0;
    while i < dates.len()
        invariant
            src.inv(),
            dst.inv(),
            i <= dates@.len(),
            start == old(dst).catalog(),
            grows(start, dst.catalog()),
            (forall|j: int| 0 <= j < i ==> !fits_u32(#[trigger] dates@[j], partition)) ==> dst.catalog() == start,
            days_sorted(start),
            consistent(src.catalog()),
            copied(start, dst.catalog(), src.catalog(), |k: u32| exists|j: int| 0 <= j < i && in_partition(dates@[j], partition, k)),
            forall|k: u32| (forall|j: int| 0 <= j < i ==> !in_partition(#[trigger] dates@[j], partition, k))
                ==> #[trigger] same_day(start, dst.catalog(), k),
            forall|j: int, ymd: u32| 0 <= j < i && in_partition(#[trigger] dates@[j], partition, ymd) && #[trigger] src.catalog().days.contains_key(ymd)
                ==> day_covered(src.catalog(), dst.catalog(), ymd),
        decreases dates.len() - i,
    {
        let ghost before = dst.catalog();
        match day_interval(dates[i], partition) {
            Some((start_day, end_day)) => {
                let days = match src.get_existing_days_in_range(start_day, end_day) {
                    Ok(days) => days,
                    Err(e) => {
                        proof {
                            assert forall|k: u32| (forall|j: int| 0 <= j < dates@.len() ==> !in_partition(#[trigger] dates@[j], partition, k))
                                implies #[trigger] same_day(start, dst.catalog(), k) by {
                                assert(forall|j: int| 0 <= j < i ==> !in_partition(#[trigger] dates@[j], partition, k));
                            }
                        }
                        return Err(e);
                    },
                };
                let copied = fill_ymd_gaps(src, dst, days);
                proof {
                    lemma_grows_transitive(start, before, dst.catalog());
                    assert forall|k: u32| (forall|j: int| 0 <= j < i + 1 ==> !in_partition(#[trigger] dates@[j], partition, k))
                        implies #[trigger] same_day(start, dst.catalog(), k) by {
                        assert(!in_partition(dates@[i as int], partition, k));
                        if days@.contains(k) {
                            let t = choose|t: int| 0 <= t < days@.len() && days@[t] == k;
                            assert(start_day <= days@[t] <= end_day);
                        }
                        assert(same_day(before, dst.catalog(), k));
                        assert(same_day(start, before, k));
                    }
                    assert forall|k: u32| (forall|j: int| 0 <= j < dates@.len() ==> !in_partition(#[trigger] dates@[j], partition, k))
                        implies #[trigger] same_day(start, dst.catalog(), k) by {
                        assert(forall|j: int| 0 <= j < i + 1 ==> !in_partition(#[trigger] dates@[j], partition, k));
                    }
                }
                copied?;
                proof {
                    let fi = |k: u32| exists|j: int| 0 <= j < i && in_partition(dates@[j], partition, k);
                    let here = |k: u32| in_partition(dates@[i as int], partition, k);
                    let fj = |k: u32| exists|j: int| 0 <= j < i + 1 && in_partition(dates@[j], partition, k);
                    assert forall|k: u32| #[trigger] src.catalog().data.contains_key(k) implies days@.contains(k) == here(k) by {
                        assert(src.catalog().days.contains_key(k));
                        if days@.contains(k) {
                            let t = choose|t: int| 0 <= t < days@.len() && days@[t] == k;
                            assert(start_day <= days@[t] <= end_day);
                        }
                        if here(k) {
                            let t = choose|t: int| 0 <= t < days@.len() && #[trigger] days@[t] == k;
                        }
                    }
                    lemma_copied_congruent(before, dst.catalog(), src.catalog(), |k: u32| days@.contains(k), here);
                    lemma_copied_compose(start, before, dst.catalog(), src.catalog(), fi, here);
                    assert forall|k: u32| #[trigger] src.catalog().data.contains_key(k) implies (fi(k) || here(k)) == fj(k) by {
                        if fj(k) {
                            let j = choose|j: int| 0 <= j < i + 1 && in_partition(dates@[j], partition, k);
                            if j < i {
                                assert(fi(k));
                            }
                        }
                    }
                    lemma_copied_congruent(start, dst.catalog(), src.catalog(), |k: u32| fi(k) || here(k), fj);
                }
                proof {
                    assert forall|j: int, ymd: u32| 0 <= j < i + 1 && in_partition(#[trigger] dates@[j], partition, ymd) && #[trigger] src.catalog().days.contains_key(ymd)
                        implies day_covered(src.catalog(), dst.catalog(), ymd) by {
                        if j < i {
                            lemma_day_covered_grows(src.catalog(), before, dst.catalog(), ymd);
                        } else {
                            let t = choose|t: int| 0 <= t < days@.len() && #[trigger] days@[t] == ymd;
                            assert(day_covered(src.catalog(), dst.catalog(), days@[t]));
                        }
                    }
                }
            },
            None => {
                proof {
                    let fi = |k: u32| exists|j: int| 0 <= j < i && in_partition(dates@[j], partition, k);
                    let fj = |k: u32| exists|j: int| 0 <= j < i + 1 && in_partition(dates@[j], partition, k);
                    assert forall|k: u32| #[trigger] src.catalog().data.contains_key(k) implies fi(k) == fj(k) by {
                        if fj(k) {
                            let j = choose|j: int| 0 <= j < i + 1 && in_partition(dates@[j], partition, k);
                            if j < i {
                                assert(fi(k));
                            }
                        }
                    }
                    lemma_copied_congruent(start, dst.catalog(), src.catalog(), fi, fj);
                }
                assert forall|j: int, ymd: u32| 0 <= j < i + 1 && in_partition(#[trigger] dates@[j], partition, ymd) && #[trigger] src.catalog().days.contains_key(ymd)
                    implies day_covered(src.catalog(), dst.catalog(), ymd) by {
                    if j == i {
                        assert(false);
                    }
                }
            },
        }
        i = i + 1;
    }
    proof {
        assert forall|k: u32| (forall|j: int| 0 <= j < dates@.len() ==> !in_partition(#[trigger] dates@[j], partition, k))
            implies #[trigger] same_day(start, dst.catalog(), k) by {
            assert(forall|j: int| 0 <= j < i ==> !in_partition(#[trigger] dates@[j], partition, k));
        }
    }
    Ok(())
}

/// Copies, from `src` to `dst`, each of the days `ymds` that `src` holds.
/// `dst` loses nothing; on success it holds every entry of each of those days
/// of `src`, with at least its peers. With no days, nothing changes. Days
/// not in `ymds` are left as they were.
pub fn fill_ymd_gaps<S: RemotePeer, D: RemotePeer>(src: &S, dst: &mut D, ymds: Vec<YearMonthDay>) -> (r: Result<(), DistStoreError>)
    requires
        src.inv(),
        old(dst).inv(),
    ensures
        final(dst).inv(),
        grows(old(dst).catalog(), final(dst).catalog()),
        r is Ok ==> forall|i: int| 0 <= i < ymds@.len() ==> day_covered(src.catalog(), final(dst).catalog(), #[trigger] ymds@[i]),
        ymds@.len() == 0 ==> r is Ok && final(dst).catalog() == old(dst).catalog(),
        forall|k: u32| !ymds@.contains(k) ==> #[trigger] same_day(old(dst).catalog(), final(dst).catalog(), k),
        r is Ok ==> copied(old(dst).catalog(), final(dst).catalog(), src.catalog(), |k: u32| ymds@.contains(k)),
{
    let ghost start = dst.catalog();
    proof {
        lemma_grows_reflexive(start);
        dst.lemma_catalog();
        lemma_copied_none(start, src.catalog());
        lemma_copied_congruent(start, start, src.catalog(), |k: u32| false, |k: u32| exists|j: int| 0 <= j < 0 && ymds@[j] == k);
    }
    let mut i: usize = 0;
    while i < ymds.len()
        invariant
            src.inv(),
            dst.inv(),
            i <= ymds@.len(),
            start == old(dst).catalog(),
            grows(start, dst.catalog()),
            i == 0 ==> dst.catalog() == start,
            days_sorted(start),
            copied(start, dst.catalog(), src.catalog(), |k: u32| exists|j: int| 0 <= j < i && ymds@[j] == k),
            forall|k: u32| (forall|j: int| 0 <= j < i ==> ymds@[j] != k) ==> #[trigger] same_day(start, dst.catalog(), k),
            forall|j: int| 0 <= j < i ==> day_covered(src.catalog(), dst.catalog(), #[trigger] ymds@[j]),
        decreases ymds.len() - i,
    {
        let ymd = ymds[i];
        let ghost before = dst.catalog();
        proof {
            assert forall|k: u32| !ymds@.contains(k) implies (forall|j: int| 0 <= j < i ==> ymds@[j] != k) by {
                assert forall|j: int| 0 <= j < i implies ymds@[j] != k by {
                    if ymds@[j] == k {
                        assert(ymds@.contains(k));
                    }
                }
            }
        }
        let fetched = src.get_data(ymd)?;
        if fetched.is_none() {
            proof {
                let fi = |k: u32| exists|j: int| 0 <= j < i && ymds@[j] == k;
                let fj = |k: u32| exists|j: int| 0 <= j < i + 1 && ymds@[j] == k;
                assert forall|k: u32| #[trigger] src.catalog().data.contains_key(k) implies fi(k) == fj(k) by {
                    if fj(k) {
                        let j = choose|j: int| 0 <= j < i + 1 && ymds@[j] == k;
                        if j < i {
                            assert(fi(k));
                        }
                    }
                }
                lemma_copied_congruent(start, dst.catalog(), src.catalog(), fi, fj);
            }
        }
        if let Some(photos) = fetched {
            proof {
                dst.lemma_catalog();
            }
            let proposed = dst.propose(ymd, photos.as_slice());
            if proposed.is_err() {
                return Err(DistStoreError::PeerFailure);
            }
            proof {
                lemma_add_grows(before, ymd, entries_model(photos@));
                lemma_grows_transitive(start, before, dst.catalog());
                assert forall|k: u32| (forall|j: int| 0 <= j < i + 1 ==> ymds@[j] != k) implies #[trigger] same_day(start, dst.catalog(), k) by {
                    assert(ymds@[i as int] != k);
                    assert(forall|j: int| 0 <= j < i ==> ymds@[j] != k);
                    assert(same_day(start, before, k));
                }
                lemma_copied_add(before, src.catalog(), ymd);
                let fi = |k: u32| exists|j: int| 0 <= j < i && ymds@[j] == k;
                let one = |k: u32| k == ymd;
                lemma_copied_compose(start, before, dst.catalog(), src.catalog(), fi, one);
                let fj = |k: u32| exists|j: int| 0 <= j < i + 1 && ymds@[j] == k;
                assert forall|k: u32| #[trigger] src.catalog().data.contains_key(k) implies (fi(k) || one(k)) == fj(k) by {
                    if fj(k) {
                        let j = choose|j: int| 0 <= j < i + 1 && ymds@[j] == k;
                        if j < i {
                            assert(fi(k));
                        }
                    }
                    if one(k) {
                        assert(ymds@[i as int] == k);
                    }
                }
                lemma_copied_congruent(start, dst.catalog(), src.catalog(), |k: u32| fi(k) || one(k), fj);
                assert forall|j: int| 0 <= j < i + 1 implies day_covered(src.catalog(), dst.catalog(), #[trigger] ymds@[j]) by {
                    if j < i {
                        lemma_day_covered_grows(src.catalog(), before, dst.catalog(), ymds@[j]);
                    }
                }
            }
        }
        i = i + 1;
    }
    proof {
        let fl = |k: u32| exists|j: int| 0 <= j < ymds@.len() && ymds@[j] == k;
        assert forall|k: u32| #[trigger] src.catalog().data.contains_key(k) implies fl(k) == ymds@.contains(k) by {}
        lemma_copied_congruent(start, dst.catalog(), src.catalog(), fl, |k: u32| ymds@.contains(k));
    }
    proof {
        assert forall|k: u32| !ymds@.contains(k) implies #[trigger] same_day(start, dst.catalog(), k) by {
            assert forall|j: int| 0 <= j < ymds@.len() implies ymds@[j] != k by {
                if ymds@[j] == k {
                    assert(ymds@.contains(k));
                }
            }
        }
    }
    Ok(())
}

/// Whether two digest tiers disagree at key `k`: one lacks it, or the digests differ.
pub open spec fn differs(m1: Map<u32, Seq<u8>>, m2: Map<u32, Seq<u8>>, k: u32) -> bool {
    !(m1.contains_key(k) && m2.contains_key(k) && m1[k] == m2[k])
}

/// Whether a day key has a month part in 1..=12 and a day part in 1..=31, so
/// that it lies in the ranges that the month and year digests are taken over.
pub open spec fn day_key_in_ranges(ymd: u32) -> bool {
    &&& year_first_month((ymd / 10000) as int) <= ymd / 100 <= year_last_month((ymd / 10000) as int)
    &&& month_first_day((ymd / 100) as int) <= ymd <= month_last_day((ymd / 100) as int)
}

/// Day `ymd` is one that a synchronisation of `a` with `b` must exchange: its
/// year, its month and the day itself differ between the two digest tiers.
pub open spec fn out_of_step(a: StorageModel, b: StorageModel, ymd: u32) -> bool {
    &&& differs(a.years, b.years, (ymd / 10000) as u32)
    &&& differs(a.months, b.months, (ymd / 100) as u32)
    &&& differs(a.days, b.days, ymd)
    &&& day_key_in_ranges(ymd)
}

/// Year `y` is in both year tiers, with different digests.
pub open spec fn year_differs_both(a: StorageModel, b: StorageModel, y: u32) -> bool {
    a.years.contains_key(y) && b.years.contains_key(y) && a.years[y] != b.years[y]
}

/// Month `ym` (month part 1 to 12) is in both month tiers with different
/// digests, and so is its year in the year tiers.
pub open spec fn month_differs_both(a: StorageModel, b: StorageModel, ym: u32) -> bool {
    &&& a.months.contains_key(ym) && b.months.contains_key(ym) && a.months[ym] != b.months[ym]
    &&& year_first_month((ym / 100) as int) <= ym <= year_last_month((ym / 100) as int)
    &&& year_differs_both(a, b, (ym / 100) as u32)
}

/// Month `ym` (month part 1 to 12) is in `b`'s month tier only, and its year
/// is in both year tiers with different digests.
pub open spec fn month_only_in(b: StorageModel, a: StorageModel, ym: u32) -> bool {
    &&& b.months.contains_key(ym) && !a.months.contains_key(ym)
    &&& year_first_month((ym / 100) as int) <= ym <= year_last_month((ym / 100) as int)
    &&& year_differs_both(a, b, (ym / 100) as u32)
}

/// Whether a synchronisation of `a` with `b` copies day `k` from `b` to `a`.
pub open spec fn pulled_by_sync(a: StorageModel, b: StorageModel, k: u32) -> bool {
    (out_of_step(a, b, k) && b.data.contains_key(k)) || day_of_year_only_in(b, a, k)
}

/// Whether a synchronisation of `a` with `b` copies day `k` from `a` to `b`.
pub open spec fn pushed_by_sync(a: StorageModel, b: StorageModel, k: u32) -> bool {
    (out_of_step(a, b, k) && a.data.contains_key(k)) || day_of_year_only_in(a, b, k)
}

/// `a`'s day entries once `b`'s entries are merged into each day that a
/// synchronisation of `a` with `b` pulls.
pub open spec fn after_pull(a: StorageModel, b: StorageModel) -> StorageModel {
    StorageModel {
        years: a.years,
        months: a.months,
        days: a.days,
        data: Map::new(
            |k: u32| a.data.contains_key(k) || (pulled_by_sync(a, b, k) && b.data.contains_key(k)),
            |k: u32| if pulled_by_sync(a, b, k) && b.data.contains_key(k) {
                merge_all(day_entries(a, k), b.data[k])
            } else {
                a.data[k]
            },
        ),
    }
}

/// A key in the day interval of a year, or of a month, belongs to it.
proof fn lemma_in_partition_key(d: u32, partition: DatePartition, k: u32)
    requires
        in_partition(d, partition, k),
    ensures
        partition == DatePartition::Year ==> k / 10000 == d,
        partition == DatePartition::YearMonth ==> k / 100 == d,
{
    match partition {
        DatePartition::Year => {
            assert(k / 10000 == d) by (nonlinear_arith)
                requires d * 10000 + 101 <= k <= d * 10000 + 1231;
        },
        DatePartition::YearMonth => {
            assert(k / 100 == d) by (nonlinear_arith)
                requires d * 100 + 1 <= k <= d * 100 + 31;
        },
    }
}

/// A key that `calc_diff` finds only in the remote rows is in range, in the
/// remote tier and not in the local one.
proof fn lemma_only_remote(local: Seq<(u32, Checksum)>, remote: Seq<(u32, Checksum)>, ma: Map<u32, Seq<u8>>, mb: Map<u32, Seq<u8>>, lo: int, hi: int, x: u32)
    requires
        lists_range(rows_model(local), ma, lo, hi),
        lists_range(rows_model(remote), mb, lo, hi),
        has_key(remote, x, remote.len() as int),
        !has_key(local, x, local.len() as int),
    ensures
        lo <= x <= hi,
        mb.contains_key(x),
        !ma.contains_key(x),
{
    let j = choose|j: int| 0 <= j < remote.len() && #[trigger] remote[j].0 == x;
    assert(rows_model(remote)[j].0 == x);
    lemma_listed(local, ma, lo, hi, x);
}

/// A key that `calc_diff` finds in both rows with different digests is in
/// range and in both tiers, with different digests.
proof fn lemma_both_differ(local: Seq<(u32, Checksum)>, remote: Seq<(u32, Checksum)>, ma: Map<u32, Seq<u8>>, mb: Map<u32, Seq<u8>>, lo: int, hi: int, x: u32)
    requires
        lists_range(rows_model(local), ma, lo, hi),
        lists_range(rows_model(remote), mb, lo, hi),
        differs_at(local, remote, x, local.len() as int, remote.len() as int),
    ensures
        lo <= x <= hi,
        ma.contains_key(x),
        mb.contains_key(x),
        ma[x] != mb[x],
{
    let (i, j) = choose|i: int, j: int| 0 <= i < local.len() && 0 <= j < remote.len() && #[trigger] local[i].0 == x && #[trigger] remote[j].0 == x && local[i].1@ != remote[j].1@;
    assert(rows_model(local)[i].0 == x);
    assert(rows_model(remote)[j].0 == x);
}

proof fn lemma_day_key_in_ranges(ymd: u32)
    requires
        day_key_in_ranges(ymd),
    ensures
        in_partition((ymd / 10000) as u32, DatePartition::Year, ymd),
        in_partition((ymd / 100) as u32, DatePartition::YearMonth, ymd),
        ymd / 10000 <= 429496,
        ymd / 100 <= 42949672,
        (ymd / 100) / 100 == ymd / 10000,
{
    let y = ymd / 10000;
    let ym = ymd / 100;
    assert(ym / 100 == y);
    assert(y * 10000 + 101 <= ymd <= y * 10000 + 1231) by (nonlinear_arith)
        requires y * 100 + 1 <= ym <= y * 100 + 12, ym * 100 + 1 <= ymd <= ym * 100 + 31;
}

/// A listed key is found in the rows with its value; an absent key is not.
proof fn lemma_listed(rows: Seq<(u32, Checksum)>, m: Map<u32, Seq<u8>>, lo: int, hi: int, k: u32)
    requires
        lists_range(rows_model(rows), m, lo, hi),
    ensures
        lo <= k <= hi && m.contains_key(k) ==> exists|i: int| 0 <= i < rows.len() && #[trigger] rows[i].0 == k && rows[i].1@ == m[k],
        !m.contains_key(k) ==> !has_key(rows, k, rows.len() as int),
{
    if lo <= k <= hi && m.contains_key(k) {
        let i = choose|i: int| 0 <= i < rows_model(rows).len() && #[trigger] rows_model(rows)[i].0 == k;
        assert(rows[i].0 == k);
    }
    if has_key(rows, k, rows.len() as int) {
        let i = choose|i: int| 0 <= i < rows.len() && #[trigger] rows[i].0 == k;
        assert(rows_model(rows)[i].0 == k);
    }
}

/// How `calc_diff` sorts a key of the common range on which two tiers differ.
proof fn lemma_diff_classifies(
    local: Seq<(u32, Checksum)>,
    remote: Seq<(u32, Checksum)>,
    ma: Map<u32, Seq<u8>>,
    mb: Map<u32, Seq<u8>>,
    lo: int,
    hi: int,
    r0: Seq<u32>,
    r1: Seq<u32>,
    r2: Seq<u32>,
    k: u32,
)
    requires
        lists_range(rows_model(local), ma, lo, hi),
        lists_range(rows_model(remote), mb, lo, hi),
        lo <= k <= hi,
        differs(ma, mb, k),
        forall|x: u32| #[trigger] r0.contains(x) <==> has_key(remote, x, remote.len() as int) && !has_key(local, x, local.len() as int),
        forall|x: u32| #[trigger] r1.contains(x) <==> has_key(local, x, local.len() as int) && !has_key(remote, x, remote.len() as int),
        forall|x: u32| #[trigger] r2.contains(x) <==> differs_at(local, remote, x, local.len() as int, remote.len() as int),
    ensures
        mb.contains_key(k) && !ma.contains_key(k) ==> r0.contains(k),
        ma.contains_key(k) && !mb.contains_key(k) ==> r1.contains(k),
        ma.contains_key(k) && mb.contains_key(k) ==> r2.contains(k),
{
    lemma_listed(local, ma, lo, hi, k);
    lemma_listed(remote, mb, lo, hi, k);
    if ma.contains_key(k) && mb.contains_key(k) {
        let i = choose|i: int| 0 <= i < local.len() && #[trigger] local[i].0 == k && local[i].1@ == ma[k];
        let j = choose|j: int| 0 <= j < remote.len() && #[trigger] remote[j].0 == k && remote[j].1@ == mb[k];
        assert(differs_at(local, remote, k, local.len() as int, remote.len() as int));
    }
}

/// Appends `src` to `dst`.
fn append_keys(dst: &mut Vec<u32>, src: &Vec<u32>)
    ensures
        final(dst)@ == old(dst)@ + src@,
        forall|x: u32| #[trigger] final(dst)@.contains(x) <==> old(dst)@.contains(x) || src@.contains(x),
{
    let ghost start = dst@;
    let mut i: usize = 0;
    while i < src.len()
        invariant
            i <= src@.len(),
            dst@ == start + src@.take(i as int),
        decreases src@.len() - i,
    {
        dst.push(src[i]);
        i = i + 1;
        assert(dst@ =~= start + src@.take(i as int));
    }
    assert(src@.take(src@.len() as int) =~= src@);
    let ghost r = dst@;
    assert forall|x: u32| #[trigger] r.contains(x) <==> start.contains(x) || src@.contains(x) by {
        if r.contains(x) {
            let t = choose|t: int| 0 <= t < r.len() && r[t] == x;
            if t >= start.len() {
                assert(src@[t - start.len()] == x);
            }
        }
        if start.contains(x) {
            let t = choose|t: int| 0 <= t < start.len() && start[t] == x;
            assert(r[t] == x);
        }
        if src@.contains(x) {
            let t = choose|t: int| 0 <= t < src@.len() && src@[t] == x;
            assert(r[start.len() + t] == x);
        }
    }
}

/// Day `ymd` holds entries in `a`, its year is absent from `b`'s year tier,
/// and it lies in the interval of that year's days.
pub open spec fn day_of_year_only_in(a: StorageModel, b: StorageModel, ymd: u32) -> bool {
    &&& a.data.contains_key(ymd)
    &&& !b.years.contains_key((ymd / 10000) as u32)
    &&& in_partition((ymd / 10000) as u32, DatePartition::Year, ymd)
}

/// A node of the catalog: a named local storage that reconciles with peers.
pub struct CatalogNode {
    name: Vec<u8>,
    storage: LocalStorage,
}

impl View for CatalogNode {
    type V = StorageModel;

    closed spec fn view(&self) -> StorageModel {
        self.storage@
    }
}

impl CatalogNode {
    pub closed spec fn wf(&self) -> bool {
        self.storage.wf()
    }

    /// The node's name as bytes.
    pub closed spec fn name_bytes(&self) -> Seq<u8> {
        self.name@
    }

    /// A node named `name` with an empty storage held in memory.
    pub fn test_new(name: &str) -> (r: CatalogNode)
        ensures
            r.wf(),
            r@ == crate::local_storage::empty_model(),
            r.name_bytes() == name.spec_bytes(),
    {
        CatalogNode { name: name.as_bytes_vec(), storage: LocalStorage::test_new() }
    }

    /// The node's identifier: its name encoded as bytes.
    pub fn id(&self) -> (r: Vec<u8>)
        ensures
            r@ == self.name_bytes(),
    {
        crate::byte_string::copy_bytes(&self.name)
    }

    /// Adds entries to a day of this node, as `LocalStorage::add_photos_to_day`.
    pub fn add_photos_to_day(&mut self, ymd: YearMonthDay, data: &[(Data, Vec<Peer>)]) -> (r: Checksum)
        requires
            old(self).wf(),
        ensures
            final(self).wf(),
            final(self)@ == add_spec(old(self)@, ymd, entries_model(data@)),
            r@ == final(self)@.days[ymd],
            final(self).name_bytes() == old(self).name_bytes(),
    {
        self.storage.add_photos_to_day(ymd, data)
    }

    /// Reconciles this node with `peer`. The digest tiers are compared top
    /// down on both sides as they stand: years first, then the months of each
    /// year whose digests differ, then the days of each such month. Then the
    /// differences are copied: a year or month held on one side only is copied
    /// whole to the other side, and a day held on one side only, or with
    /// differing digests, is copied to the side that lacks it, or both ways.
    /// Entries are first pulled from the peer (years, months, days), then
    /// pushed to it (years, months, days).
    ///
    /// Neither side loses an entry or a peer label, whether or not the peer
    /// fails. On success the result is exact: each day that the sync pulls
    /// (`pulled_by_sync`: its year, month and day digests all differed, or its
    /// year was the peer's only) holds this node's old entries with the peer's
    /// merged in, and each day that it pushes (`pushed_by_sync`, the same from
    /// this node's side) holds on the peer the peer's old entries with this
    /// node's (as they stand after the pull) merged in. Every other day, on
    /// either side, is left as it was.
    ///
    /// Peer labels never enter a digest, so a day on which both sides hold the
    /// same identifiers but different labels has equal digests and is not
    /// exchanged: the two sides then keep their own labels for it. A day key
    /// whose month part is not 1 to 12 or whose day part is not 1 to 31 lies
    /// outside the ranges that the digests are taken over and is exchanged only
    /// with a year that one side lacks, if at all.
    pub fn sync_with_peer<P: RemotePeer>(&mut self, peer: &mut P) -> (r: Result<(), DistStoreError>)
        requires
            old(self).wf(),
            old(peer).inv(),
        ensures
            final(self).wf(),
            final(peer).inv(),
            grows(old(self)@, final(self)@),
            grows(old(peer).catalog(), final(peer).catalog()),
            r is Ok ==> forall|ymd: u32| #[trigger] out_of_step(old(self)@, old(peer).catalog(), ymd)
                ==> day_covered(old(peer).catalog(), final(self)@, ymd) && day_covered(old(self)@, final(peer).catalog(), ymd),
            r is Ok ==> forall|ymd: u32| #[trigger] day_of_year_only_in(old(peer).catalog(), old(self)@, ymd)
                ==> day_covered(old(peer).catalog(), final(self)@, ymd),
            r is Ok ==> forall|ymd: u32| #[trigger] day_of_year_only_in(old(self)@, old(peer).catalog(), ymd)
                ==> day_covered(old(self)@, final(peer).catalog(), ymd),
            r is Ok ==> copied(old(self)@, final(self)@, old(peer).catalog(),
                |k: u32| pulled_by_sync(old(self)@, old(peer).catalog(), k)),
            r is Ok ==> copied(old(peer).catalog(), final(peer).catalog(), after_pull(old(self)@, old(peer).catalog()),
                |k: u32| pushed_by_sync(old(self)@, old(peer).catalog(), k)),
    {
        let ghost a0 = self@;
        let ghost b0 = peer.catalog();
        proof {
            lemma_grows_reflexive(a0);
            lemma_grows_reflexive(b0);
            peer.lemma_catalog();
            self.storage.lemma_wf();
        }
        let local_years = self.storage.get_years_checksums();
        let remote_years = peer.get_years_checksums()?;
        let (pull_years, push_years, diff_y) = calc_diff(local_years.as_slice(), remote_years.as_slice());
        proof {
            assert forall|ymd: u32| (#[trigger] out_of_step(a0, b0, ymd) || day_of_year_only_in(b0, a0, ymd) || day_of_year_only_in(a0, b0, ymd)) implies {
                let y = (ymd / 10000) as u32;
                &&& (b0.years.contains_key(y) && !a0.years.contains_key(y) ==> pull_years@.contains(y))
                &&& (a0.years.contains_key(y) && !b0.years.contains_key(y) ==> push_years@.contains(y))
                &&& (out_of_step(a0, b0, ymd) && a0.years.contains_key(y) && b0.years.contains_key(y) ==> diff_y@.contains(y))
            } by {
                let y = (ymd / 10000) as u32;
                if !out_of_step(a0, b0, ymd) {
                    if day_of_year_only_in(b0, a0, ymd) {
                        lemma_year_of_day(b0, ymd);
                    } else {
                        lemma_year_of_day(a0, ymd);
                    }
                }
                lemma_diff_classifies(local_years@, remote_years@, a0.years, b0.years, 0, u32::MAX as int, pull_years@, push_years@, diff_y@, y);
            }
        }

        proof {
            assert forall|j: int| 0 <= j < diff_y@.len() implies #[trigger] year_differs_both(a0, b0, diff_y@[j]) by {
                assert(diff_y@.contains(diff_y@[j]));
                lemma_both_differ(local_years@, remote_years@, a0.years, b0.years, 0, u32::MAX as int, diff_y@[j]);
            }
        }
        let mut pull_months: Vec<u32> = Vec::new();
        let mut push_months: Vec<u32> = Vec::new();
        let mut pull_days: Vec<u32> = Vec::new();
        let mut push_days: Vec<u32> = Vec::new();
        let mut yi: usize = 0;
        while yi < diff_y.len()
            invariant
                self.wf(),
                peer.inv(),
                self@ == a0,
                peer.catalog() == b0,
                consistent(a0),
                consistent(b0),
                yi <= diff_y@.len(),
                forall|j: int| 0 <= j < diff_y@.len() ==> #[trigger] year_differs_both(a0, b0, diff_y@[j]),
                forall|x: u32| #[trigger] pull_months@.contains(x) ==> month_only_in(b0, a0, x),
                forall|x: u32| #[trigger] push_months@.contains(x) ==> month_only_in(a0, b0, x),
                forall|x: u32| #[trigger] pull_days@.contains(x) ==> out_of_step(a0, b0, x) && b0.data.contains_key(x),
                forall|x: u32| #[trigger] push_days@.contains(x) ==> out_of_step(a0, b0, x) && a0.data.contains_key(x),
                forall|ymd: u32| #[trigger] out_of_step(a0, b0, ymd) && b0.data.contains_key(ymd) && a0.years.contains_key((ymd / 10000) as u32)
                    && (exists|j: int| 0 <= j < yi && diff_y@[j] == (ymd / 10000) as u32)
                    ==> pull_months@.contains((ymd / 100) as u32) || pull_days@.contains(ymd),
                forall|ymd: u32| #[trigger] out_of_step(a0, b0, ymd) && a0.data.contains_key(ymd) && b0.years.contains_key((ymd / 10000) as u32)
                    && (exists|j: int| 0 <= j < yi && diff_y@[j] == (ymd / 10000) as u32)
                    ==> push_months@.contains((ymd / 100) as u32) || push_days@.contains(ymd),
            decreases diff_y.len() - yi,
        {
            let y = diff_y[yi];
            if y <= 42949672 {
                let local_months = self.storage.get_months_checksum(y);
                let remote_months = peer.get_months_checksum(y)?;
                let (missing_on_local, missing_on_remote, diff_ym) = calc_diff(local_months.as_slice(), remote_months.as_slice());
                let ghost pm_old = pull_months@;
                let ghost qm_old = push_months@;
                append_keys(&mut pull_months, &missing_on_local);
                append_keys(&mut push_months, &missing_on_remote);
                proof {
                    assert(year_differs_both(a0, b0, diff_y@[yi as int]));
                    assert forall|x: u32| #[trigger] pull_months@.contains(x) implies month_only_in(b0, a0, x) by {
                        if !pm_old.contains(x) {
                            lemma_only_remote(local_months@, remote_months@, a0.months, b0.months, y * 100 + 1, y * 100 + 12, x);
                            lemma_month_in_year_range(x as int, y as int);
                        }
                    }
                    assert forall|x: u32| #[trigger] push_months@.contains(x) implies month_only_in(a0, b0, x) by {
                        if !qm_old.contains(x) {
                            lemma_only_remote(remote_months@, local_months@, b0.months, a0.months, y * 100 + 1, y * 100 + 12, x);
                            lemma_month_in_year_range(x as int, y as int);
                        }
                    }
                    assert forall|t: int| 0 <= t < diff_ym@.len() implies #[trigger] month_differs_both(a0, b0, diff_ym@[t]) by {
                        let x = diff_ym@[t];
                        assert(diff_ym@.contains(x));
                        lemma_both_differ(local_months@, remote_months@, a0.months, b0.months, y * 100 + 1, y * 100 + 12, x);
                        lemma_month_in_year_range(x as int, y as int);
                    }
                }
                proof {
                    assert forall|ymd: u32| #[trigger] out_of_step(a0, b0, ymd) && (ymd / 10000) as u32 == y implies {
                        let ym = (ymd / 100) as u32;
                        &&& (b0.months.contains_key(ym) && !a0.months.contains_key(ym) ==> pull_months@.contains(ym))
                        &&& (a0.months.contains_key(ym) && !b0.months.contains_key(ym) ==> push_months@.contains(ym))
                        &&& (a0.months.contains_key(ym) && b0.months.contains_key(ym) ==> diff_ym@.contains(ym))
                    } by {
                        lemma_day_key_in_ranges(ymd);
                        lemma_diff_classifies(local_months@, remote_months@, a0.months, b0.months, y * 100 + 1, y * 100 + 12,
                            missing_on_local@, missing_on_remote@, diff_ym@, (ymd / 100) as u32);
                    }
                }
                let ghost pm = pull_months@;
                let ghost qm = push_months@;
                let mut mi: usize = 0;
                while mi < diff_ym.len()
                    invariant
                        self.wf(),
                        peer.inv(),
                        self@ == a0,
                        peer.catalog() == b0,
                        consistent(a0),
                        consistent(b0),
                        yi < diff_y@.len(),
                        y == diff_y@[yi as int],
                        mi <= diff_ym@.len(),
                        pull_months@ == pm,
                        push_months@ == qm,
                        forall|j: int| 0 <= j < diff_y@.len() ==> #[trigger] year_differs_both(a0, b0, diff_y@[j]),
                        forall|t: int| 0 <= t < diff_ym@.len() ==> #[trigger] month_differs_both(a0, b0, diff_ym@[t]),
                        forall|x: u32| #[trigger] pull_months@.contains(x) ==> month_only_in(b0, a0, x),
                        forall|x: u32| #[trigger] push_months@.contains(x) ==> month_only_in(a0, b0, x),
                        forall|x: u32| #[trigger] pull_days@.contains(x) ==> out_of_step(a0, b0, x) && b0.data.contains_key(x),
                        forall|x: u32| #[trigger] push_days@.contains(x) ==> out_of_step(a0, b0, x) && a0.data.contains_key(x),
                        forall|ymd: u32| #[trigger] out_of_step(a0, b0, ymd) && (ymd / 10000) as u32 == y ==> {
                            let ym = (ymd / 100) as u32;
                            &&& (b0.months.contains_key(ym) && !a0.months.contains_key(ym) ==> pm.contains(ym))
                            &&& (a0.months.contains_key(ym) && !b0.months.contains_key(ym) ==> qm.contains(ym))
                            &&& (a0.months.contains_key(ym) && b0.months.contains_key(ym) ==> diff_ym@.contains(ym))
                        },
                        forall|ymd: u32| #[trigger] out_of_step(a0, b0, ymd) && b0.data.contains_key(ymd) && a0.years.contains_key((ymd / 10000) as u32)
                            && (exists|j: int| 0 <= j < yi && diff_y@[j] == (ymd / 10000) as u32)
                            ==> pull_months@.contains((ymd / 100) as u32) || pull_days@.contains(ymd),
                        forall|ymd: u32| #[trigger] out_of_step(a0, b0, ymd) && a0.data.contains_key(ymd) && b0.years.contains_key((ymd / 10000) as u32)
                            && (exists|j: int| 0 <= j < yi && diff_y@[j] == (ymd / 10000) as u32)
                            ==> push_months@.contains((ymd / 100) as u32) || push_days@.contains(ymd),
                        forall|ymd: u32| #[trigger] out_of_step(a0, b0, ymd) && (ymd / 10000) as u32 == y
                            && (exists|k: int| 0 <= k < mi && diff_ym@[k] == (ymd / 100) as u32)
                            ==> pull_days@.contains(ymd) && push_days@.contains(ymd) || (pull_days@.contains(ymd) && !a0.data.contains_key(ymd))
                                || (push_days@.contains(ymd) && !b0.data.contains_key(ymd)) || (!a0.data.contains_key(ymd) && !b0.data.contains_key(ymd)),
                    decreases diff_ym.len() - mi,
                {
                    let ym = diff_ym[mi];
                    if ym <= 42949672 {
                        let local_days = self.storage.get_days_checksum(ym);
                        let remote_days = peer.get_days_checksum(ym)?;
                        let (missing_on_local, missing_on_remote, diff_ymd) = calc_diff(local_days.as_slice(), remote_days.as_slice());
                        let ghost pd_old = pull_days@;
                        let ghost qd_old = push_days@;
                        append_keys(&mut pull_days, &missing_on_local);
                        append_keys(&mut pull_days, &diff_ymd);
                        append_keys(&mut push_days, &missing_on_remote);
                        append_keys(&mut push_days, &diff_ymd);
                        proof {
                            assert(month_differs_both(a0, b0, diff_ym@[mi as int]));
                            assert forall|x: u32| #[trigger] pull_days@.contains(x) implies out_of_step(a0, b0, x) && b0.data.contains_key(x) by {
                                if !pd_old.contains(x) {
                                    if missing_on_local@.contains(x) {
                                        lemma_only_remote(local_days@, remote_days@, a0.days, b0.days, ym * 100 + 1, ym * 100 + 31, x);
                                    } else {
                                        lemma_both_differ(local_days@, remote_days@, a0.days, b0.days, ym * 100 + 1, ym * 100 + 31, x);
                                    }
                                    lemma_day_in_month_range(x as int, ym as int);
                                    assert(x / 10000 == ym / 100);
                                }
                            }
                            assert forall|x: u32| #[trigger] push_days@.contains(x) implies out_of_step(a0, b0, x) && a0.data.contains_key(x) by {
                                if !qd_old.contains(x) {
                                    if missing_on_remote@.contains(x) {
                                        lemma_only_remote(remote_days@, local_days@, b0.days, a0.days, ym * 100 + 1, ym * 100 + 31, x);
                                    } else {
                                        lemma_both_differ(local_days@, remote_days@, a0.days, b0.days, ym * 100 + 1, ym * 100 + 31, x);
                                    }
                                    lemma_day_in_month_range(x as int, ym as int);
                                    assert(x / 10000 == ym / 100);
                                }
                            }
                        }
                        proof {
                            assert forall|ymd: u32| #[trigger] out_of_step(a0, b0, ymd) && (ymd / 100) as u32 == ym implies
                                pull_days@.contains(ymd) && push_days@.contains(ymd) || (pull_days@.contains(ymd) && !a0.data.contains_key(ymd))
                                || (push_days@.contains(ymd) && !b0.data.contains_key(ymd)) || (!a0.data.contains_key(ymd) && !b0.data.contains_key(ymd)) by {
                                lemma_diff_classifies(local_days@, remote_days@, a0.days, b0.days, ym * 100 + 1, ym * 100 + 31,
                                    missing_on_local@, missing_on_remote@, diff_ymd@, ymd);
                            }
                        }
                    }
                    proof {
                        assert forall|ymd: u32| #[trigger] out_of_step(a0, b0, ymd) && (ymd / 10000) as u32 == y
                            && (exists|k: int| 0 <= k < mi + 1 && diff_ym@[k] == (ymd / 100) as u32)
                            implies pull_days@.contains(ymd) && push_days@.contains(ymd) || (pull_days@.contains(ymd) && !a0.data.contains_key(ymd))
                                || (push_days@.contains(ymd) && !b0.data.contains_key(ymd)) || (!a0.data.contains_key(ymd) && !b0.data.contains_key(ymd)) by {
                            lemma_day_key_in_ranges(ymd);
                        }
                    }
                    mi = mi + 1;
                }
                proof {
                    assert forall|ymd: u32| #[trigger] out_of_step(a0, b0, ymd) && b0.data.contains_key(ymd) && a0.years.contains_key((ymd / 10000) as u32)
                        && (exists|j: int| 0 <= j < yi + 1 && diff_y@[j] == (ymd / 10000) as u32)
                        implies pull_months@.contains((ymd / 100) as u32) || pull_days@.contains(ymd) by {
                        if (ymd / 10000) as u32 == y {
                            let ym = (ymd / 100) as u32;
                            lemma_day_key_in_ranges(ymd);
                            assert(b0.months.contains_key(ym));
                            if a0.months.contains_key(ym) {
                                let k = choose|k: int| 0 <= k < diff_ym@.len() && diff_ym@[k] == ym;
                                assert(b0.days.contains_key(ymd));
                            }
                        } else {
                            let j = choose|j: int| 0 <= j < yi + 1 && diff_y@[j] == (ymd / 10000) as u32;
                            assert(j < yi);
                        }
                    }
                    assert forall|ymd: u32| #[trigger] out_of_step(a0, b0, ymd) && a0.data.contains_key(ymd) && b0.years.contains_key((ymd / 10000) as u32)
                        && (exists|j: int| 0 <= j < yi + 1 && diff_y@[j] == (ymd / 10000) as u32)
                        implies push_months@.contains((ymd / 100) as u32) || push_days@.contains(ymd) by {
                        if (ymd / 10000) as u32 == y {
                            let ym = (ymd / 100) as u32;
                            lemma_day_key_in_ranges(ymd);
                            assert(a0.months.contains_key(ym));
                            if b0.months.contains_key(ym) {
                                let k = choose|k: int| 0 <= k < diff_ym@.len() && diff_ym@[k] == ym;
                                assert(a0.days.contains_key(ymd));
                            }
                        } else {
                            let j = choose|j: int| 0 <= j < yi + 1 && diff_y@[j] == (ymd / 10000) as u32;
                            assert(j < yi);
                        }
                    }
                }
            } else {
                proof {
                    assert forall|ymd: u32| #[trigger] out_of_step(a0, b0, ymd) && (exists|j: int| 0 <= j < yi + 1 && diff_y@[j] == (ymd / 10000) as u32)
                        implies (exists|j: int| 0 <= j < yi && diff_y@[j] == (ymd / 10000) as u32) by {
                        lemma_day_key_in_ranges(ymd);
                        let j = choose|j: int| 0 <= j < yi + 1 && diff_y@[j] == (ymd / 10000) as u32;
                        assert(j < yi);
                    }
                }
            }
            yi = yi + 1;
        }

        let ghost py = pull_years@;
        let ghost pm = pull_months@;
        let ghost pd = pull_days@;
        let ghost qy = push_years@;
        let ghost qm = push_months@;
        let ghost qd = push_days@;
        let r1 = fill_gaps(&*peer, self, pull_years, DatePartition::Year);
        let ghost s1 = self@;
        proof {
            lemma_grows_transitive(a0, a0, s1);
        }
        r1?;
        let r2 = fill_gaps(&*peer, self, pull_months, DatePartition::YearMonth);
        let ghost s2 = self@;
        proof {
            lemma_grows_transitive(a0, s1, s2);
        }
        r2?;
        let r3 = fill_ymd_gaps(&*peer, self, pull_days);
        let ghost s3 = self@;
        proof {
            lemma_grows_transitive(a0, s2, s3);
            lemma_grows_transitive(s1, s2, s3);
            self.storage.lemma_wf();
        }
        r3?;
        let r4 = fill_gaps(&*self, peer, push_years, DatePartition::Year);
        let ghost q1 = peer.catalog();
        proof {
            lemma_grows_transitive(b0, b0, q1);
        }
        r4?;
        let r5 = fill_gaps(&*self, peer, push_months, DatePartition::YearMonth);
        let ghost q2 = peer.catalog();
        proof {
            lemma_grows_transitive(b0, q1, q2);
        }
        r5?;
        let r6 = fill_ymd_gaps(&*self, peer, push_days);
        let ghost q3 = peer.catalog();
        proof {
            lemma_grows_transitive(b0, q2, q3);
            lemma_grows_transitive(q1, q2, q3);
        }
        r6?;
        proof {
            let f1 = |k: u32| exists|i: int| 0 <= i < py.len() && in_partition(py[i], DatePartition::Year, k);
            let f2 = |k: u32| exists|i: int| 0 <= i < pm.len() && in_partition(pm[i], DatePartition::YearMonth, k);
            let f3 = |k: u32| pd.contains(k);
            let f12 = |k: u32| f1(k) || f2(k);
            lemma_copied_compose(a0, s1, s2, b0, f1, f2);
            lemma_copied_compose(a0, s2, s3, b0, f12, f3);
            let pull = |k: u32| pulled_by_sync(a0, b0, k);
            assert forall|k: u32| #[trigger] b0.data.contains_key(k) implies (f12(k) || f3(k)) == pull(k) by {
                let y = (k / 10000) as u32;
                let ym = (k / 100) as u32;
                lemma_year_of_day(b0, k);
                assert(b0.days.contains_key(k));
                if f1(k) {
                    let i = choose|i: int| 0 <= i < py.len() && in_partition(py[i], DatePartition::Year, k);
                    lemma_in_partition_key(py[i], DatePartition::Year, k);
                    assert(py.contains(py[i]));
                    lemma_only_remote(local_years@, remote_years@, a0.years, b0.years, 0, u32::MAX as int, py[i]);
                    assert(day_of_year_only_in(b0, a0, k));
                } else if f2(k) {
                    let i = choose|i: int| 0 <= i < pm.len() && in_partition(pm[i], DatePartition::YearMonth, k);
                    lemma_in_partition_key(pm[i], DatePartition::YearMonth, k);
                    assert(pm.contains(pm[i]));
                    assert(month_only_in(b0, a0, pm[i]));
                    assert(k / 10000 == pm[i] / 100);
                    if a0.data.contains_key(k) {
                        assert(a0.months.contains_key(ym));
                    }
                    assert(out_of_step(a0, b0, k));
                } else if f3(k) {
                } else if pull(k) {
                    if out_of_step(a0, b0, k) {
                        lemma_day_key_in_ranges(k);
                    }
                    if !a0.years.contains_key(y) {
                        let t = choose|t: int| 0 <= t < py.len() && py[t] == y;
                        assert(f1(k));
                    } else {
                        let j = choose|j: int| 0 <= j < diff_y@.len() && diff_y@[j] == y;
                        if pm.contains(ym) {
                            let t = choose|t: int| 0 <= t < pm.len() && pm[t] == ym;
                            assert(f2(k));
                        }
                    }
                }
            }
            lemma_copied_congruent(a0, s3, b0, |k: u32| f12(k) || f3(k), pull);
            let g1 = |k: u32| exists|i: int| 0 <= i < qy.len() && in_partition(qy[i], DatePartition::Year, k);
            let g2 = |k: u32| exists|i: int| 0 <= i < qm.len() && in_partition(qm[i], DatePartition::YearMonth, k);
            let g3 = |k: u32| qd.contains(k);
            let g12 = |k: u32| g1(k) || g2(k);
            peer.lemma_catalog();
            lemma_copied_compose(b0, q1, q2, s3, g1, g2);
            lemma_copied_compose(b0, q2, q3, s3, g12, g3);
            let push = |k: u32| pushed_by_sync(a0, b0, k);
            assert forall|k: u32| #[trigger] s3.data.contains_key(k) implies (g12(k) || g3(k)) == push(k) by {
                let y = (k / 10000) as u32;
                let ym = (k / 100) as u32;
                assert(copied_day(a0, s3, b0, pull(k), k));
                if g1(k) {
                    let i = choose|i: int| 0 <= i < qy.len() && in_partition(qy[i], DatePartition::Year, k);
                    lemma_in_partition_key(qy[i], DatePartition::Year, k);
                    assert(qy.contains(qy[i]));
                    lemma_only_remote(remote_years@, local_years@, b0.years, a0.years, 0, u32::MAX as int, qy[i]);
                    if b0.data.contains_key(k) {
                        lemma_year_of_day(b0, k);
                    }
                    assert(day_of_year_only_in(a0, b0, k));
                } else if g2(k) {
                    let i = choose|i: int| 0 <= i < qm.len() && in_partition(qm[i], DatePartition::YearMonth, k);
                    lemma_in_partition_key(qm[i], DatePartition::YearMonth, k);
                    assert(qm.contains(qm[i]));
                    assert(month_only_in(a0, b0, qm[i]));
                    assert(k / 10000 == qm[i] / 100);
                    if b0.data.contains_key(k) {
                        assert(b0.months.contains_key(ym));
                    }
                    assert(out_of_step(a0, b0, k));
                } else if g3(k) {
                } else if push(k) {
                    lemma_year_of_day(a0, k);
                    if out_of_step(a0, b0, k) {
                        lemma_day_key_in_ranges(k);
                    }
                    if !b0.years.contains_key(y) {
                        let t = choose|t: int| 0 <= t < qy.len() && qy[t] == y;
                        assert(g1(k));
                    } else {
                        let j = choose|j: int| 0 <= j < diff_y@.len() && diff_y@[j] == y;
                        if qm.contains(ym) {
                            let t = choose|t: int| 0 <= t < qm.len() && qm[t] == ym;
                            assert(g2(k));
                        }
                    }
                }
            }
            lemma_copied_congruent(b0, q3, s3, |k: u32| g12(k) || g3(k), push);
            let ap = after_pull(a0, b0);
            assert forall|k: u32| #[trigger] s3.data.contains_key(k) == ap.data.contains_key(k)
                && (s3.data.contains_key(k) ==> s3.data[k] == ap.data[k]) by {
                assert(copied_day(a0, s3, b0, pull(k), k));
            }
            assert(s3.data =~= ap.data);
            lemma_copied_same_source(b0, q3, s3, ap, push);
            assert forall|ymd: u32| #![trigger out_of_step(a0, b0, ymd)] #![trigger day_of_year_only_in(b0, a0, ymd)]
                out_of_step(a0, b0, ymd) || day_of_year_only_in(b0, a0, ymd) implies
                (out_of_step(a0, b0, ymd) || day_of_year_only_in(b0, a0, ymd)) && day_covered(b0, s3, ymd) by {
                let y = (ymd / 10000) as u32;
                let ym = (ymd / 100) as u32;
                if b0.data.contains_key(ymd) {
                    lemma_year_of_day(b0, ymd);
                    assert(b0.days.contains_key(ymd));
                    if out_of_step(a0, b0, ymd) {
                        lemma_day_key_in_ranges(ymd);
                    }
                    if !a0.years.contains_key(y) {
                        let t = choose|t: int| 0 <= t < pull_years@.len() && pull_years@[t] == y;
                        assert(in_partition(pull_years@[t], DatePartition::Year, ymd));
                        lemma_day_covered_grows(b0, s1, s3, ymd);
                    } else {
                        let j = choose|j: int| 0 <= j < diff_y@.len() && diff_y@[j] == y;
                        if pull_months@.contains(ym) {
                            let t = choose|t: int| 0 <= t < pull_months@.len() && pull_months@[t] == ym;
                            assert(in_partition(pull_months@[t], DatePartition::YearMonth, ymd));
                            lemma_day_covered_grows(b0, s2, s3, ymd);
                        } else {
                            let t = choose|t: int| 0 <= t < pull_days@.len() && pull_days@[t] == ymd;
                            assert(day_covered(b0, s3, pull_days@[t]));
                        }
                    }
                }
            }
            assert forall|ymd: u32| #![trigger out_of_step(a0, b0, ymd)] #![trigger day_of_year_only_in(a0, b0, ymd)]
                out_of_step(a0, b0, ymd) || day_of_year_only_in(a0, b0, ymd) implies
                (out_of_step(a0, b0, ymd) || day_of_year_only_in(a0, b0, ymd)) && day_covered(a0, q3, ymd) by {
                let y = (ymd / 10000) as u32;
                let ym = (ymd / 100) as u32;
                if a0.data.contains_key(ymd) {
                    lemma_year_of_day(a0, ymd);
                    assert(day_covered(a0, s3, ymd));
                    assert(s3.days.contains_key(ymd));
                    if out_of_step(a0, b0, ymd) {
                        lemma_day_key_in_ranges(ymd);
                    }
                    if !b0.years.contains_key(y) {
                        let t = choose|t: int| 0 <= t < push_years@.len() && push_years@[t] == y;
                        assert(in_partition(push_years@[t], DatePartition::Year, ymd));
                        assert(day_covered(s3, q1, ymd));
                        lemma_covered_from_earlier(a0, s3, q1, ymd);
                        lemma_day_covered_grows(a0, q1, q3, ymd);
                    } else {
                        let j = choose|j: int| 0 <= j < diff_y@.len() && diff_y@[j] == y;
                        if push_months@.contains(ym) {
                            let t = choose|t: int| 0 <= t < push_months@.len() && push_months@[t] == ym;
                            assert(in_partition(push_months@[t], DatePartition::YearMonth, ymd));
                            assert(day_covered(s3, q2, ymd));
                            lemma_covered_from_earlier(a0, s3, q2, ymd);
                            lemma_day_covered_grows(a0, q2, q3, ymd);
                        } else {
                            let t = choose|t: int| 0 <= t < push_days@.len() && push_days@[t] == ymd;
                            assert(day_covered(s3, q3, push_days@[t]));
                            lemma_covered_from_earlier(a0, s3, q3, ymd);
                        }
                    }
                }
            }
        }
        Ok(())
    }
}

impl RemotePeer for CatalogNode {
    open spec fn inv(&self) -> bool {
        self.wf()
    }

    open spec fn catalog(&self) -> StorageModel {
        self@
    }

    proof fn lemma_catalog(&self) {
        self.storage.lemma_wf();
    }

    fn id(&self) -> Vec<u8> {
        crate::byte_string::copy_bytes(&self.name)
    }

    fn notify_added_by(&self, peer_id: &Vec<u8>) {
        // Nothing to record: a node learns of its partners through its roster.
    }

    fn get_years_checksums(&self) -> (r: Result<Vec<(Year, Checksum)>, DistStoreError>)
        ensures
            r is Ok,
    {
        Ok(self.storage.get_years_checksums())
    }

    fn get_months_checksum(&self, y: Year) -> (r: Result<Vec<(YearMonth, Checksum)>, DistStoreError>)
        ensures
            r is Ok,
    {
        Ok(self.storage.get_months_checksum(y))
    }

    fn get_days_checksum(&self, ym: YearMonth) -> (r: Result<Vec<(YearMonthDay, Checksum)>, DistStoreError>)
        ensures
            r is Ok,
    {
        Ok(self.storage.get_days_checksum(ym))
    }

    fn get_existing_days_in_range(&self, ymd_from: YearMonthDay, ymd_to: YearMonthDay) -> (r: Result<Vec<YearMonthDay>, DistStoreError>)
        ensures
            r is Ok,
    {
        Ok(self.storage.get_existing_days_in_range(ymd_from, ymd_to))
    }

    fn get_data(&self, ymd: YearMonthDay) -> (r: Result<Option<Vec<(Data, Vec<Peer>)>>, DistStoreError>)
        ensures
            r is Ok,
    {
        Ok(self.storage.get_photos(ymd))
    }

    fn propose(&mut self, ymd: YearMonthDay, data: &[(Data, Vec<Peer>)]) -> (r: Result<Checksum, DistStoreError>)
        ensures
            r is Ok,
    {
        Ok(self.add_photos_to_day(ymd, data))
    }
}

} // verus!
