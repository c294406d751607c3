//! Everything gathered about one address, and the rates derived from it.

use vstd::prelude::*;
use crate::count_table::{bumped, CountTable};
use crate::ip_location::IpLocation;
use crate::log_entry::{referrer_of, timestamp_of, url_of, user_agent_of, LogEntry};

verus! {

/// The earliest instant of a non-empty sequence.
pub open spec fn min_of(s: Seq<i64>) -> int
    decreases s.len(),
{
    if s.len() <= 1 {
        if s.len() == 1 { s[0] as int } else { 0 }
    } else {
        let m = min_of(s.drop_last());
        if s.last() < m { s.last() as int } else { m }
    }
}

/// The latest instant of a non-empty sequence.
pub open spec fn max_of(s: Seq<i64>) -> int
    decreases s.len(),
{
    if s.len() <= 1 {
        if s.len() == 1 { s[0] as int } else { 0 }
    } else {
        let m = max_of(s.drop_last());
        if s.last() > m { s.last() as int } else { m }
    }
}

/// How many instants of `s` are at or after `bound`.
pub open spec fn count_at_least(s: Seq<i64>, bound: int) -> nat
    decreases s.len(),
{
    if s.len() == 0 {
        0
    } else {
        count_at_least(s.drop_last(), bound) + if s.last() >= bound { 1nat } else { 0nat }
    }
}

/// Whole minutes from the earliest to the latest instant, at least one.
pub open spec fn span_minutes(s: Seq<i64>) -> int {
    let m = (max_of(s) - min_of(s)) / 60;
    if m < 1 { 1 } else { m }
}

/// The requests-per-minute rate as a fraction: no timestamps give 0 / 1;
/// otherwise the number of timestamps over the span in whole minutes, where a
/// span under a minute counts as one minute.
pub open spec fn rate_fraction(s: Seq<i64>) -> (int, int) {
    if s.len() == 0 {
        (0, 1)
    } else {
        (s.len() as int, span_minutes(s))
    }
}

/// What an aggregate holds, as values.
pub struct InfoView {
    pub count: usize,
    pub uas: Seq<(Seq<char>, usize)>,
    pub urls: Seq<(Seq<char>, usize)>,
    pub referrers: Seq<(Seq<char>, usize)>,
    pub timestamps: Seq<i64>,
    pub location: Option<IpLocation>,
}

/// An aggregate with nothing in it.
pub open spec fn fresh_info() -> InfoView {
    InfoView {
        count: 0,
        uas: Seq::empty(),
        urls: Seq::empty(),
        referrers: Seq::empty(),
        timestamps: Seq::empty(),
        location: None,
    }
}

/// One more request.
pub open spec fn incremented(v: InfoView) -> InfoView {
    InfoView { count: bumped(v.count), ..v }
}

/// Adds `k` to a table when present.
pub open spec fn add_opt(t: Seq<(Seq<char>, usize)>, k: Option<Seq<char>>) -> Seq<(Seq<char>, usize)> {
    match k {
        Some(k) => CountTable::spec_add(t, k),
        None => t,
    }
}

/// The fields of `line` merged in, as a full parse gives them.
pub open spec fn collected(v: InfoView, line: Seq<char>) -> InfoView {
    InfoView {
        uas: add_opt(v.uas, user_agent_of(line)),
        urls: add_opt(v.urls, url_of(line)),
        referrers: add_opt(v.referrers, referrer_of(line)),
        timestamps: match timestamp_of(line) {
            Some(t) => v.timestamps.push(t),
            None => v.timestamps,
        },
        ..v
    }
}

/// Per-address aggregate.
pub struct IpInfo {
    pub count: usize,
    pub ua_map: CountTable,
    pub url_map: CountTable,
    pub referrer_map: CountTable,
    pub timestamps: Vec<i64>,
    pub location_data: Option<IpLocation>,
}

impl View for IpInfo {
    type V = InfoView;

    open spec fn view(&self) -> InfoView {
        InfoView {
            count: self.count,
            uas: self.ua_map@,
            urls: self.url_map@,
            referrers: self.referrer_map@,
            timestamps: self.timestamps@,
            location: self.location_data,
        }
    }
}

impl IpInfo {
    pub open spec fn wf(&self) -> bool {
        &&& self.ua_map.wf()
        &&& self.url_map.wf()
        &&& self.referrer_map.wf()
    }

    /// A fresh aggregate: nothing counted, no timestamps, no location.
    pub open spec fn is_fresh(&self) -> bool {
        &&& self.wf()
        &&& self@ == fresh_info()
    }

    pub fn new() -> (r: IpInfo)
        ensures
            r.is_fresh(),
    {
        let r = IpInfo {
            count: 0,
            ua_map: CountTable::new(),
            url_map: CountTable::new(),
            referrer_map: CountTable::new(),
            timestamps: Vec::new(),
            location_data: None,
        };
        assert(r@ =~= fresh_info());
        r
    }

    /// Counts one more request.
    pub fn increment(&mut self)
        ensures
            *final(self) == (IpInfo { count: bumped(old(self).count), ..*old(self) }),
    {
        if self.count < usize::MAX {
            self.count = self.count + 1;
        }
    }

    /// Merges the fields of one parsed line: each present field counts once in
    /// its table, a present timestamp is appended. The request count stays.
    pub fn collect_entry(&mut self, info: LogEntry)
        requires
            old(self).wf(),
        ensures
            final(self).wf(),
            final(self).count == old(self).count,
            final(self).location_data == old(self).location_data,
            final(self).ua_map@ == match info.ua {
                Some(k) => CountTable::spec_add(old(self).ua_map@, k@),
                None => old(self).ua_map@,
            },
            final(self).url_map@ == match info.url {
                Some(k) => CountTable::spec_add(old(self).url_map@, k@),
                None => old(self).url_map@,
            },
            final(self).referrer_map@ == match info.referrer {
                Some(k) => CountTable::spec_add(old(self).referrer_map@, k@),
                None => old(self).referrer_map@,
            },
            final(self).timestamps@ == match info.timestamp {
                Some(t) => old(self).timestamps@.push(t),
                None => old(self).timestamps@,
            },
    {
        if let Some(ua) = info.ua {
            self.ua_map.add(ua);
        }
        if let Some(url) = info.url {
            self.url_map.add(url);
        }
        if let Some(referrer) = info.referrer {
            self.referrer_map.add(referrer);
        }
        if let Some(timestamp) = info.timestamp {
            self.timestamps.push(timestamp);
        }
    }

    /// The average requests per minute, as a numerator and a denominator.
    pub fn average_rpm_parts(&self) -> (r: (u64, u64))
        ensures
            (r.0 as int, r.1 as int) == rate_fraction(self.timestamps@),
    {
        let n = self.timestamps.len();
        if n == 0 {
            return (0, 1);
        }
        let mut lo: i64 = self.timestamps[0];
        let mut hi: i64 = self.timestamps[0];
        let mut i: usize = 1;
        while i < n
            invariant
                1 <= i <= n == self.timestamps@.len(),
                lo == min_of(self.timestamps@.subrange(0, i as int)),
                hi == max_of(self.timestamps@.subrange(0, i as int)),
            decreases n - i,
        {
            let t = self.timestamps[i];
            proof {
                let s = self.timestamps@.subrange(0, i + 1);
                assert(s.drop_last() =~= self.timestamps@.subrange(0, i as int));
            }
            if t < lo {
                lo = t;
            }
            if t > hi {
                hi = t;
            }
            i = i + 1;
        }
        assert(self.timestamps@.subrange(0, n as int) =~= self.timestamps@);
        proof {
            lemma_min_le_max(self.timestamps@);
        }
        let minutes = ((hi as i128 - lo as i128) / 60) as u64;
        (n as u64, if minutes < 1 { 1 } else { minutes })
    }

    /// How many timestamps are at or after `reference - window_secs`.
    pub fn requests_since(&self, reference: i64, window_secs: u32) -> (r: usize)
        ensures
            r == count_at_least(self.timestamps@, reference - window_secs),
    {
        let bound: i128 = reference as i128 - window_secs as i128;
        let mut k: usize = 0;
        let mut i: usize = 0;
        while i < self.timestamps.len()
            invariant
                i <= self.timestamps@.len(),
                bound == reference - window_secs,
                k == count_at_least(self.timestamps@.subrange(0, i as int), bound as int),
                k <= i,
            decreases self.timestamps.len() - i,
        {
            proof {
                let s = self.timestamps@.subrange(0, i + 1);
                assert(s.drop_last() =~= self.timestamps@.subrange(0, i as int));
            }
            if self.timestamps[i] as i128 >= bound {
                k = k + 1;
            }
            i = i + 1;
        }
        assert(self.timestamps@.subrange(0, i as int) =~= self.timestamps@);
        k
    }

    /// The latest timestamp, if any.
    pub fn last_timestamp(&self) -> (r: Option<i64>)
        ensures
            self.timestamps@.len() == 0 ==> r is None,
            self.timestamps@.len() > 0 ==> r == Some(max_of(self.timestamps@) as i64),
    {
        let n = self.timestamps.len();
        if n == 0 {
            return None;
        }
        let mut hi: i64 = self.timestamps[0];
        let mut i: usize = 1;
        while i < n
            invariant
                1 <= i <= n == self.timestamps@.len(),
                hi == max_of(self.timestamps@.subrange(0, i as int)),
            decreases n - i,
        {
            let t = self.timestamps[i];
            proof {
                let s = self.timestamps@.subrange(0, i + 1);
                assert(s.drop_last() =~= self.timestamps@.subrange(0, i as int));
            }
            if t > hi {
                hi = t;
            }
            i = i + 1;
        }
        assert(self.timestamps@.subrange(0, n as int) =~= self.timestamps@);
        Some(hi)
    }
}

/// The earliest instant of a non-empty sequence is at most its latest, and both are instants.
pub proof fn lemma_min_le_max(s: Seq<i64>)
    requires
        s.len() >= 1,
    ensures
        min_of(s) <= max_of(s),
        i64::MIN <= min_of(s) <= i64::MAX,
        i64::MIN <= max_of(s) <= i64::MAX,
    decreases s.len(),
{
    if s.len() > 1 {
        lemma_min_le_max(s.drop_last());
    }
}

} // verus!
