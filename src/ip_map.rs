//! The aggregates of all addresses, in the order each address was first seen.

use vstd::prelude::*;
use crate::count_table::keys_of;
use crate::ip_info::{collected, fresh_info, incremented, rate_fraction, InfoView, IpInfo};
use crate::ip_location::IpLocation;
use crate::keys::{distinct, key_index, lemma_push_key, Keys};
use crate::log_entry::LogEntry;
use crate::rank::{is_ranking, lemma_ranking_unique, rank_by_count};

verus! {

/// The model of an address map: each address with what was gathered on it.
pub type MapView = Seq<(Seq<char>, InfoView)>;

/// The map with an entry for `a`: a new address gets a fresh aggregate, last.
pub open spec fn with_entry(m: MapView, a: Seq<char>) -> MapView {
    if 0 <= key_index(keys_of(m), a) < m.len() {
        m
    } else {
        m.push((a, fresh_info()))
    }
}

/// The map with the aggregate of `a` (made where missing) changed by `f`.
pub open spec fn map_update(m: MapView, a: Seq<char>, f: spec_fn(InfoView) -> InfoView) -> MapView {
    let m1 = with_entry(m, a);
    let i = key_index(keys_of(m1), a);
    m1.update(i, (a, f(m1[i].1)))
}

/// One more request for `a`.
pub open spec fn map_increment(m: MapView, a: Seq<char>) -> MapView {
    map_update(m, a, |v: InfoView| incremented(v))
}

/// The fields of `line` merged into the aggregate of `a`.
pub open spec fn map_collect(m: MapView, a: Seq<char>, line: Seq<char>) -> MapView {
    map_update(m, a, |v: InfoView| collected(v, line))
}

/// The map without `a`.
pub open spec fn map_remove(m: MapView, a: Seq<char>) -> MapView {
    let i = key_index(keys_of(m), a);
    if 0 <= i < m.len() {
        m.remove(i)
    } else {
        m
    }
}

/// The request counts of a map, entry by entry.
pub open spec fn request_counts(m: MapView) -> Seq<usize> {
    m.map_values(|e: (Seq<char>, InfoView)| e.1.count)
}

/// The entries of `s` whose flag in `keep` is set, in order.
pub open spec fn kept<T>(s: Seq<T>, keep: Seq<bool>) -> Seq<T>
    decreases s.len(),
{
    if s.len() == 0 {
        Seq::empty()
    } else {
        let prev = kept(s.drop_last(), keep.subrange(0, s.len() - 1));
        if keep[s.len() - 1] {
            prev.push(s.last())
        } else {
            prev
        }
    }
}

/// The map after each location whose address has an entry was attached to it,
/// in order.
pub open spec fn located(m: MapView, locations: Seq<IpLocation>) -> MapView
    decreases locations.len(),
{
    if locations.len() == 0 {
        m
    } else {
        let prev = located(m, locations.drop_last());
        let loc = locations.last();
        match loc.ip_address {
            Some(a) => {
                let i = key_index(keys_of(prev), a@);
                if 0 <= i < prev.len() {
                    prev.update(i, (a@, InfoView { location: Some(loc), ..prev[i].1 }))
                } else {
                    prev
                }
            },
            None => prev,
        }
    }
}

/// The aggregate meets the minimum rate (requests per minute, compared
/// exactly) and the minimum number of requests, where these are given.
pub open spec fn passes_minimums(v: InfoView, min_rpm: Option<u16>, min_requests: Option<usize>) -> bool {
    let (n, d) = rate_fraction(v.timestamps);
    &&& match min_rpm {
        Some(r) => n >= r * d,
        None => true,
    }
    &&& match min_requests {
        Some(q) => v.count >= q,
        None => true,
    }
}

/// Address to aggregate, in first-seen order.
pub struct IpMap {
    addresses: Keys,
    infos: Vec<IpInfo>,
}

impl View for IpMap {
    type V = MapView;

    closed spec fn view(&self) -> MapView {
        Seq::new(self.addresses@.len(), |i: int| (self.addresses@[i], self.infos@[i]@))
    }
}

impl IpMap {
    /// Addresses and aggregates line up, no address occurs twice, and every
    /// aggregate is well formed.
    pub closed spec fn wf(&self) -> bool {
        &&& self.addresses.wf()
        &&& self.addresses@.len() == self.infos@.len()
        &&& forall|i: int| 0 <= i < self.infos@.len() ==> (#[trigger] self.infos@[i]).wf()
    }

    /// No address occurs twice.
    pub proof fn lemma_distinct(&self)
        requires
            self.wf(),
        ensures
            distinct(keys_of(self@)),
    {
        self.addresses.lemma_distinct();
        assert(keys_of(self@) =~= self.addresses@);
    }

    pub fn new() -> (r: IpMap)
        ensures
            r.wf(),
            r@ == Seq::<(Seq<char>, InfoView)>::empty(),
    {
        let r = IpMap { addresses: Keys::new(), infos: Vec::new() };
        assert(r@ =~= Seq::<(Seq<char>, InfoView)>::empty());
        r
    }

    pub fn len(&self) -> (r: usize)
        requires
            self.wf(),
        ensures
            r == self@.len(),
    {
        self.addresses.len()
    }

    /// Entry `i`: an address and its aggregate.
    pub fn entry(&self, i: usize) -> (r: (&String, &IpInfo))
        requires
            self.wf(),
            i < self@.len(),
        ensures
            r.0@ == self@[i as int].0,
            r.1@ == self@[i as int].1,
            r.1.wf(),
    {
        (self.addresses.get(i), &self.infos[i])
    }

    /// The aggregate of `address`, if it has one.
    pub fn get(&self, address: &String) -> (r: Option<&IpInfo>)
        requires
            self.wf(),
        ensures
            match r {
                Some(info) => {
                    let i = key_index(keys_of(self@), address@);
                    0 <= i < self@.len() && info@ == self@[i].1 && info.wf()
                },
                None => key_index(keys_of(self@), address@) == -1,
            },
    {
        assert(keys_of(self@) =~= self.addresses@);
        match self.addresses.find(address.as_str()) {
            Some(i) => Some(&self.infos[i]),
            None => None,
        }
    }

    /// Position of `address`, after giving it a fresh aggregate where it had none.
    fn entry_index(&mut self, address: &str) -> (r: usize)
        requires
            old(self).wf(),
        ensures
            final(self).wf(),
            final(self)@ == with_entry(old(self)@, address@),
            r < final(self)@.len(),
            r == key_index(keys_of(final(self)@), address@),
    {
        let ghost ks = self.addresses@;
        assert(keys_of(self@) =~= ks);
        match self.addresses.find(address) {
            Some(i) => i,
            None => {
                proof {
                    self.addresses.lemma_distinct();
                    lemma_push_key(ks, address@);
                }
                let i = self.addresses.len();
                self.addresses.push(address.to_owned());
                self.infos.push(IpInfo::new());
                assert(forall|j: int| 0 <= j < i ==> self.infos@[j] == old(self).infos@[j]);
                assert(self@ =~= old(self)@.push((address@, fresh_info())));
                assert(keys_of(self@) =~= ks.push(address@));
                i
            },
        }
    }

    /// Counts one more request for `address`.
    pub fn increment(&mut self, address: &str)
        requires
            old(self).wf(),
        ensures
            final(self).wf(),
            final(self)@ == map_increment(old(self)@, address@),
            0 <= key_index(keys_of(final(self)@), address@) < final(self)@.len(),
    {
        let i = self.entry_index(address);
        let ghost mid = self@;
        self.infos[i].increment();
        assert(self@ =~= mid.update(i as int, (address@, incremented(mid[i as int].1))));
        assert(keys_of(self@) =~= keys_of(mid));
    }

    /// Appends an instant to the timestamps of `address`, which has an entry.
    pub fn push_timestamp(&mut self, address: &str, t: i64)
        requires
            old(self).wf(),
            0 <= key_index(keys_of(old(self)@), address@) < old(self)@.len(),
        ensures
            final(self).wf(),
            ({
                let i = key_index(keys_of(old(self)@), address@);
                final(self)@ == old(self)@.update(
                    i,
                    (address@, InfoView { timestamps: old(self)@[i].1.timestamps.push(t), ..old(self)@[i].1 }),
                )
            }),
    {
        let i = self.entry_index(address);
        let ghost mid = self@;
        self.infos[i].timestamps.push(t);
        assert(self@ =~= mid.update(
            i as int,
            (address@, InfoView { timestamps: mid[i as int].1.timestamps.push(t), ..mid[i as int].1 }),
        ));
    }

    /// Merges a full parse of `line` into the aggregate of `address`.
    pub(crate) fn collect(&mut self, address: &str, entry: LogEntry, line: Ghost<Seq<char>>)
        requires
            old(self).wf(),
            LogEntry::spec_parse(line@, entry),
        ensures
            final(self).wf(),
            final(self)@ == map_collect(old(self)@, address@, line@),
    {
        let i = self.entry_index(address);
        let ghost mid = self@;
        self.infos[i].collect_entry(entry);
        assert(self@ =~= mid.update(i as int, (address@, collected(mid[i as int].1, line@))));
    }

    /// Drops the aggregate of `address`, if any.
    pub fn remove(&mut self, address: &str)
        requires
            old(self).wf(),
        ensures
            final(self).wf(),
            final(self)@ == map_remove(old(self)@, address@),
    {
        let ghost ks = self.addresses@;
        assert(keys_of(self@) =~= ks);
        match self.addresses.find(address) {
            Some(i) => {
                self.addresses.remove_at(i);
                self.infos.remove(i);
                assert(self@ =~= old(self)@.remove(i as int));
            },
            None => {},
        }
    }

    /// Keeps the entries whose flag is set, in their order.
    pub fn retain_where(&mut self, keep: &Vec<bool>)
        requires
            old(self).wf(),
            keep@.len() == old(self)@.len(),
        ensures
            final(self).wf(),
            final(self)@ == kept(old(self)@, keep@),
    {
        let ghost m = self@;
        let ghost ks = self.addresses@;
        let n = self.addresses.len();
        let mut addresses = Keys::new();
        let mut infos: Vec<IpInfo> = Vec::new();
        let mut i: usize = 0;
        let ghost mut origin: Seq<int> = Seq::empty();
        proof {
            self.addresses.lemma_distinct();
        }
        assert(m.subrange(0, 0) =~= Seq::<(Seq<char>, InfoView)>::empty());
        while i < n
            invariant
                i <= n == self.addresses@.len() == self.infos@.len() == keep@.len() == m.len(),
                self.addresses@ == ks,
                distinct(ks),
                m == old(self)@,
                forall|j: int| i <= j < n ==> (#[trigger] self.infos@[j]) == old(self).infos@[j],
                forall|j: int| 0 <= j < n ==> (#[trigger] old(self).infos@[j]).wf(),
                forall|j: int| 0 <= j < n ==> (#[trigger] m[j]) == (ks[j], old(self).infos@[j]@),
                addresses.wf(),
                addresses@.len() == infos@.len(),
                forall|j: int| 0 <= j < infos@.len() ==> (#[trigger] infos@[j]).wf(),
                origin.len() == addresses@.len(),
                old(self).infos@.len() == n,
                forall|j: int|
                    0 <= j < addresses@.len() ==> 0 <= #[trigger] origin[j] < i && addresses@[j]
                        == ks[origin[j]],
                Seq::new(addresses@.len(), |j: int| (addresses@[j], infos@[j]@)) == kept(
                    m.subrange(0, i as int),
                    keep@.subrange(0, i as int),
                ),
            decreases n - i,
        {
            let ghost before = Seq::new(addresses@.len(), |j: int| (addresses@[j], infos@[j]@));
            let ghost sub = m.subrange(0, i + 1);
            assert(sub.drop_last() =~= m.subrange(0, i as int));
            assert(keep@.subrange(0, i + 1).subrange(0, i as int) =~= keep@.subrange(0, i as int));
            if keep[i] {
                let a = self.addresses.get(i).clone();
                let mut info = IpInfo::new();
                std::mem::swap(&mut info, &mut self.infos[i]);
                proof {
                    assert forall|j: int| 0 <= j < addresses@.len() implies addresses@[j] != a@ by {
                        assert(ks[origin[j]] != ks[i as int]);
                    }
                }
                let ghost prev_addresses = addresses@;
                addresses.push(a);
                infos.push(info);
                proof {
                    origin = origin.push(i as int);
                }
                assert(Seq::new(addresses@.len(), |j: int| (addresses@[j], infos@[j]@)) =~= before.push(
                    m[i as int],
                ));
            }
            i = i + 1;
        }
        assert(m.subrange(0, n as int) =~= m);
        assert(keep@.subrange(0, n as int) =~= keep@);
        self.addresses = addresses;
        self.infos = infos;
        assert(self@ =~= kept(m, keep@));
    }

    /// Keeps the entries that meet the given minimums, in their order.
    pub fn retain_minimums(&mut self, min_rpm: Option<u16>, min_requests: Option<usize>)
        requires
            old(self).wf(),
        ensures
            final(self).wf(),
            final(self)@ == kept(
                old(self)@,
                Seq::new(
                    old(self)@.len(),
                    |j: int| passes_minimums(old(self)@[j].1, min_rpm, min_requests),
                ),
            ),
    {
        let mut keep: Vec<bool> = Vec::new();
        let mut j: usize = 0;
        while j < self.infos.len()
            invariant
                self.wf(),
                j <= self@.len(),
                keep@ =~= Seq::new(
                    j as nat,
                    |q: int| passes_minimums(self@[q].1, min_rpm, min_requests),
                ),
            decreases self@.len() - j,
        {
            let info = &self.infos[j];
            let (n, d) = info.average_rpm_parts();
            proof {
                if let Some(r) = min_rpm {
                    assert(r * d <= 0xffffu64 * 0xffff_ffff_ffff_ffffu64) by (nonlinear_arith)
                        requires
                            r <= 0xffff,
                            d <= 0xffff_ffff_ffff_ffffu64,
                    ;
                }
            }
            let rate_ok = match min_rpm {
                Some(r) => n as u128 >= r as u128 * d as u128,
                None => true,
            };
            let count_ok = match min_requests {
                Some(q) => info.count >= q,
                None => true,
            };
            keep.push(rate_ok && count_ok);
            j = j + 1;
        }
        self.retain_where(&keep);
    }

    /// Attaches each location to the entry of its address, where there is one.
    pub fn set_locations(&mut self, locations: Vec<IpLocation>)
        requires
            old(self).wf(),
        ensures
            final(self).wf(),
            final(self)@ == located(old(self)@, locations@),
    {
        let ghost m = self@;
        let ghost locs = locations@;
        assert(locs.subrange(0, 0) =~= Seq::<IpLocation>::empty());
        for loc in it: locations.into_iter()
            invariant
                self.wf(),
                it.seq() == locs,
                self@ == located(m, locs.subrange(0, it.index() as int)),
        {
            let ghost k = it.index();
            assert(loc == locs[k]);
            let ghost sub = locs.subrange(0, k + 1);
            assert(sub.drop_last() =~= locs.subrange(0, k));
            let ghost prev = self@;
            match &loc.ip_address {
                Some(a) => {
                    assert(keys_of(self@) =~= self.addresses@);
                    match self.addresses.find(a.as_str()) {
                        Some(i) => {
                            let ghost l = loc;
                            self.infos[i].location_data = Some(loc);
                            assert(self@ =~= prev.update(
                                i as int,
                                (a@, InfoView { location: Some(l), ..prev[i as int].1 }),
                            ));
                        },
                        None => {},
                    }
                },
                None => {},
            }
        }
        assert(locs.subrange(0, locs.len() as int) =~= locs);
    }

    /// The positions of the entries, most requests first, ties in first-seen order.
    pub fn ranked(&self) -> (r: Vec<usize>)
        requires
            self.wf(),
        ensures
            is_ranking(request_counts(self@), r@),
    {
        let mut counts: Vec<usize> = Vec::new();
        let mut i: usize = 0;
        while i < self.infos.len()
            invariant
                self.wf(),
                i <= self.infos@.len(),
                counts@ =~= request_counts(self@).subrange(0, i as int),
            decreases self.infos.len() - i,
        {
            counts.push(self.infos[i].count);
            i = i + 1;
        }
        assert(counts@ =~= request_counts(self@));
        rank_by_count(&counts)
    }
}

/// The entries of a map as values.
pub open spec fn listing(r: Seq<(&String, &IpInfo)>) -> MapView {
    r.map_values(|e: (&String, &IpInfo)| (e.0@, e.1@))
}

/// `l` lists the entries of `m` in the ranking: most requests first, ties in
/// first-seen order.
pub open spec fn is_ranked_listing(m: MapView, l: MapView) -> bool {
    exists|order: Seq<usize>|
        {
            &&& #[trigger] is_ranking(request_counts(m), order)
            &&& l.len() == order.len()
            &&& forall|k: int| 0 <= k < l.len() ==> #[trigger] l[k] == m[order[k] as int]
        }
}

/// There is one ranked listing of a map: listing the same map twice gives the
/// same order, ties included.
pub proof fn lemma_ranked_listing_unique(m: MapView, l1: MapView, l2: MapView)
    requires
        is_ranked_listing(m, l1),
        is_ranked_listing(m, l2),
    ensures
        l1 == l2,
{
    let o1 = choose|order: Seq<usize>|
        {
            &&& #[trigger] is_ranking(request_counts(m), order)
            &&& l1.len() == order.len()
            &&& forall|k: int| 0 <= k < l1.len() ==> #[trigger] l1[k] == m[order[k] as int]
        };
    let o2 = choose|order: Seq<usize>|
        {
            &&& #[trigger] is_ranking(request_counts(m), order)
            &&& l2.len() == order.len()
            &&& forall|k: int| 0 <= k < l2.len() ==> #[trigger] l2[k] == m[order[k] as int]
        };
    lemma_ranking_unique(request_counts(m), o1, o2);
    assert(l1 =~= l2);
}

/// The entries of a map, most requests first, ties in first-seen order.
pub fn ip_map_to_vect(ip_map: &IpMap) -> (r: Vec<(&String, &IpInfo)>)
    requires
        ip_map.wf(),
    ensures
        is_ranked_listing(ip_map@, listing(r@)),
{
    let order = ip_map.ranked();
    let mut r: Vec<(&String, &IpInfo)> = Vec::new();
    let mut k: usize = 0;
    while k < order.len()
        invariant
            ip_map.wf(),
            is_ranking(request_counts(ip_map@), order@),
            k <= order.len(),
            r@.len() == k,
            forall|j: int|
                0 <= j < k ==> (#[trigger] r@[j].0)@ == ip_map@[order@[j] as int].0 && r@[j].1@
                    == ip_map@[order@[j] as int].1,
        decreases order.len() - k,
    {
        r.push(ip_map.entry(order[k]));
        k = k + 1;
    }
    assert forall|j: int| 0 <= j < listing(r@).len() implies #[trigger] listing(r@)[j]
        == ip_map@[order@[j] as int] by {
        assert(r@[j].0@ == ip_map@[order@[j] as int].0);
    }
    assert(is_ranking(request_counts(ip_map@), order@));
    r
}

} // verus!
