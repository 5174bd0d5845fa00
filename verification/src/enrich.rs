//! Bookkeeping of the enrichment service: best-effort hostname (reverse DNS) and
//! country (GeoIP) data per remote address.
//!
//! Readers take cached data without waiting; cache misses are queued once for a
//! background worker, whose results land in the cache. The worker itself, the DNS
//! resolver and the GeoIP database live with the application; this module holds the
//! cache, the set of queued addresses and the switches, and decides what each event
//! does to them.
use vstd::prelude::*;

use crate::ip::{
    ip_parse, ip_text, ip_to_string, is_private_or_loopback, parse_ip, private_or_loopback, same_ip,
    IpAddress, IpView,
};
use crate::text::{clone_opt_string, compare_text};
use crate::types::FlowRecord;

verus! {

/// Enrichment data of one address.
#[derive(Debug, Default)]
pub struct Enrichment {
    pub hostname: Option<String>,
    pub country: Option<String>,
}

/// The text of an optional string.
pub open spec fn opt_text(o: Option<String>) -> Option<Seq<char>> {
    match o {
        Some(s) => Some(s@),
        None => None,
    }
}

/// The value of an [`Enrichment`].
pub struct EnrichView {
    pub hostname: Option<Seq<char>>,
    pub country: Option<Seq<char>>,
}

impl View for Enrichment {
    type V = EnrichView;

    open spec fn view(&self) -> EnrichView {
        EnrichView { hostname: opt_text(self.hostname), country: opt_text(self.country) }
    }
}

impl Clone for Enrichment {
    fn clone(&self) -> (res: Self)
        ensures
            res == *self,
    {
        Enrichment {
            hostname: clone_opt_string(&self.hostname),
            country: clone_opt_string(&self.country),
        }
    }
}

/// Counters of the enrichment service, for display.
#[derive(Debug, Clone, Copy, Default)]
pub struct EnrichmentSnapshot {
    pub cached_entries: usize,
    pub queue_depth: usize,
    pub geoip_loaded: bool,
    pub rdns_enabled: bool,
}

/// One cached address.
struct CacheEntry {
    ip: IpAddress,
    data: Enrichment,
}

/// The addresses of a list of cache entries.
spec fn entry_keys(s: Seq<CacheEntry>) -> Seq<IpView> {
    s.map_values(|e: CacheEntry| e.ip@)
}

/// The map that a list of cache entries stands for.
spec fn entries_map(s: Seq<CacheEntry>) -> Map<IpView, EnrichView>
    decreases s.len(),
{
    if s.len() == 0 {
        Map::empty()
    } else {
        entries_map(s.drop_last()).insert(s.last().ip@, s.last().data@)
    }
}

/// The addresses of a list, as a set.
pub open spec fn ip_set(s: Seq<IpAddress>) -> Set<IpView> {
    s.map_values(|a: IpAddress| a@).to_set()
}

/// The value of the enrichment bookkeeping.
pub struct EnrichmentCacheView {
    /// Cached data per address.
    pub cache: Map<IpView, EnrichView>,
    /// Addresses queued for the worker and not yet resolved.
    pub pending: Set<IpView>,
    pub rdns_enabled: bool,
    pub geoip_loaded: bool,
    /// Set once the service shuts down; nothing is queued afterwards.
    pub stopped: bool,
}

/// Cache, queue and switches of the enrichment service.
pub struct EnrichmentCache {
    cache: Vec<CacheEntry>,
    pending: Vec<IpAddress>,
    rdns_enabled: bool,
    geoip_loaded: bool,
    stopped: bool,
}

impl View for EnrichmentCache {
    type V = EnrichmentCacheView;

    closed spec fn view(&self) -> EnrichmentCacheView {
        EnrichmentCacheView {
            cache: entries_map(self.cache@),
            pending: ip_set(self.pending@),
            rdns_enabled: self.rdns_enabled,
            geoip_loaded: self.geoip_loaded,
            stopped: self.stopped,
        }
    }
}

/// Whether a request for `ip` queues a lookup: the service runs and `ip` is neither
/// cached nor queued already.
pub open spec fn request_queues(st: EnrichmentCacheView, ip: IpView) -> bool {
    !st.stopped && !st.cache.contains_key(ip) && !st.pending.contains(ip)
}

/// The entries of `m` whose data has a hostname.
pub open spec fn with_hostname(m: Map<IpView, EnrichView>) -> Map<IpView, EnrichView> {
    Map::new(|k: IpView| m.contains_key(k) && m[k].hostname is Some, |k: IpView| m[k])
}

/// The entries of `m` whose data has a country.
pub open spec fn with_country(m: Map<IpView, EnrichView>) -> Map<IpView, EnrichView> {
    Map::new(|k: IpView| m.contains_key(k) && m[k].country is Some, |k: IpView| m[k])
}

/// Whether the data `d` is kept: it has a hostname (`by_hostname`) or a country.
spec fn keeps(d: EnrichView, by_hostname: bool) -> bool {
    if by_hostname {
        d.hostname is Some
    } else {
        d.country is Some
    }
}

/// The entries of `m` whose data is kept.
spec fn kept(m: Map<IpView, EnrichView>, by_hostname: bool) -> Map<IpView, EnrichView> {
    Map::new(|k: IpView| m.contains_key(k) && keeps(m[k], by_hostname), |k: IpView| m[k])
}

/// The name that a reverse lookup reports: none when the resolver gave none, an empty
/// name, or the address text itself (some resolvers echo the input unchanged).
pub open spec fn reverse_name(name: Option<Seq<char>>, ip: IpView) -> Option<Seq<char>> {
    match name {
        Some(n) => if n.len() == 0 || n == ip_text(ip) {
            None
        } else {
            Some(n)
        },
        None => None,
    }
}

/// The address whose enrichment a flow uses: its destination, when that reads as an
/// IP address outside the private, loopback and special ranges.
pub open spec fn enrich_target(f: FlowRecord) -> Option<IpView> {
    match ip_parse(f.dst_ip@) {
        Some(ip) => if private_or_loopback(ip) {
            None
        } else {
            Some(ip)
        },
        None => None,
    }
}

/// `g` and `f` agree on all fields but hostname and country.
pub open spec fn same_but_enrichment(g: FlowRecord, f: FlowRecord) -> bool {
    &&& g.id == f.id
    &&& g.src_ip == f.src_ip
    &&& g.dst_ip == f.dst_ip
    &&& g.src_port == f.src_port
    &&& g.dst_port == f.dst_port
    &&& g.protocol == f.protocol
    &&& g.bytes_up == f.bytes_up
    &&& g.bytes_down == f.bytes_down
    &&& g.packets_up == f.packets_up
    &&& g.packets_down == f.packets_down
    &&& g.first_seen == f.first_seen
    &&& g.last_seen == f.last_seen
}

/// `g` is `f` decorated with the cached data of its target: a missing hostname or
/// country is taken from the cache; a flow without cached data is left as it is.
pub open spec fn decorated(g: FlowRecord, f: FlowRecord, cache: Map<IpView, EnrichView>) -> bool {
    match enrich_target(f) {
        Some(ip) => if cache.contains_key(ip) {
            &&& same_but_enrichment(g, f)
            &&& opt_text(g.hostname) == (if f.hostname is Some {
                opt_text(f.hostname)
            } else {
                cache[ip].hostname
            })
            &&& opt_text(g.country) == (if f.country is Some {
                opt_text(f.country)
            } else {
                cache[ip].country
            })
        } else {
            g == f
        },
        None => g == f,
    }
}

/// The targets of `flows` that have no cached data: what an enrichment pass asks for.
pub open spec fn wanted(flows: Seq<FlowRecord>, cache: Map<IpView, EnrichView>) -> Set<IpView>
    decreases flows.len(),
{
    if flows.len() == 0 {
        Set::empty()
    } else {
        let w = wanted(flows.drop_last(), cache);
        match enrich_target(flows.last()) {
            Some(ip) => if cache.contains_key(ip) {
                w
            } else {
                w.insert(ip)
            },
            None => w,
        }
    }
}

/// The addresses that an enrichment pass over `flows` queues, in the order of the flows:
/// each target without cached data, unless it was queued before the pass (`pending`) or
/// earlier in the pass.
pub open spec fn new_targets(
    flows: Seq<FlowRecord>,
    cache: Map<IpView, EnrichView>,
    pending: Set<IpView>,
) -> Seq<IpView>
    decreases flows.len(),
{
    if flows.len() == 0 {
        seq![]
    } else {
        let earlier = new_targets(flows.drop_last(), cache, pending);
        match enrich_target(flows.last()) {
            Some(ip) => if !cache.contains_key(ip) && !pending.contains(ip) && !wanted(
                flows.drop_last(),
                cache,
            ).contains(ip) {
                earlier.push(ip)
            } else {
                earlier
            },
            None => earlier,
        }
    }
}

proof fn lemma_entries_map_dom(s: Seq<CacheEntry>)
    ensures
        entries_map(s).dom() == entry_keys(s).to_set(),
        entries_map(s).dom().finite(),
    decreases s.len(),
{
    if s.len() > 0 {
        lemma_entries_map_dom(s.drop_last());
        assert(entry_keys(s.drop_last()) =~= entry_keys(s).drop_last());
        entry_keys(s).drop_last().lemma_push_to_set_commute(s.last().ip@);
        assert(entry_keys(s).drop_last().push(s.last().ip@) =~= entry_keys(s));
    }
}

proof fn lemma_entries_map_value(s: Seq<CacheEntry>, i: int)
    requires
        entry_keys(s).no_duplicates(),
        0 <= i < s.len(),
    ensures
        entries_map(s).contains_key(s[i].ip@),
        entries_map(s)[s[i].ip@] == s[i].data@,
    decreases s.len(),
{
    if i < s.len() - 1 {
        let r = s.drop_last();
        assert(entry_keys(r) =~= entry_keys(s).drop_last());
        assert(r[i] == s[i]);
        lemma_entries_map_value(r, i);
        assert(entry_keys(s)[i] != entry_keys(s)[s.len() - 1]);
    }
}

proof fn lemma_entries_map_update(s: Seq<CacheEntry>, i: int, x: CacheEntry)
    requires
        entry_keys(s).no_duplicates(),
        0 <= i < s.len(),
        x.ip@ == s[i].ip@,
    ensures
        entries_map(s.update(i, x)) == entries_map(s).insert(x.ip@, x.data@),
        entry_keys(s.update(i, x)) == entry_keys(s),
    decreases s.len(),
{
    assert(entry_keys(s.update(i, x)) =~= entry_keys(s));
    let t = s.update(i, x);
    if i == s.len() - 1 {
        assert(t.drop_last() =~= s.drop_last());
        assert(entries_map(t) =~= entries_map(s).insert(x.ip@, x.data@));
    } else {
        let r = s.drop_last();
        assert(entry_keys(r) =~= entry_keys(s).drop_last());
        assert(t.drop_last() =~= r.update(i, x));
        lemma_entries_map_update(r, i, x);
        assert(entry_keys(s)[i] != entry_keys(s)[s.len() - 1]);
        assert(entries_map(t) =~= entries_map(s).insert(x.ip@, x.data@));
    }
}

impl EnrichmentCache {
    /// Internal consistency: each address is cached once and queued once.
    pub closed spec fn wf(&self) -> bool {
        &&& entry_keys(self.cache@).no_duplicates()
        &&& self.pending@.map_values(|a: IpAddress| a@).no_duplicates()
    }

    /// Empty bookkeeping with reverse DNS on or off and no GeoIP database.
    pub fn new(rdns_enabled: bool) -> (res: Self)
        ensures
            res.wf(),
            res@.cache == Map::<IpView, EnrichView>::empty(),
            res@.pending == Set::<IpView>::empty(),
            res@.rdns_enabled == rdns_enabled,
            !res@.geoip_loaded,
            !res@.stopped,
    {
        let res = EnrichmentCache {
            cache: Vec::new(),
            pending: Vec::new(),
            rdns_enabled,
            geoip_loaded: false,
            stopped: false,
        };
        proof {
            assert(res.pending@.map_values(|a: IpAddress| a@) =~= Seq::<IpView>::empty());
            assert(ip_set(res.pending@) =~= Set::<IpView>::empty());
        }
        res
    }

    /// The index of the cache entry of `ip`, if any.
    fn cache_index(&self, ip: &IpAddress) -> (res: Option<usize>)
        requires
            self.wf(),
        ensures
            match res {
                Some(i) => i < self.cache@.len() && self.cache@[i as int].ip@ == ip@,
                None => !self@.cache.contains_key(ip@),
            },
    {
        let mut i: usize = 0;
        while i < self.cache.len()
            invariant
                i <= self.cache@.len(),
                forall|j: int| 0 <= j < i ==> self.cache@[j].ip@ != ip@,
            decreases self.cache@.len() - i,
        {
            if same_ip(&self.cache[i].ip, ip) {
                return Some(i);
            }
            i = i + 1;
        }
        proof {
            lemma_entries_map_dom(self.cache@);
            if entry_keys(self.cache@).to_set().contains(ip@) {
                let j = choose|j: int| 0 <= j < entry_keys(self.cache@).len() && entry_keys(self.cache@)[j] == ip@;
                assert(self.cache@[j].ip@ == ip@);
            }
        }
        None
    }

    /// The index of `ip` among the queued addresses, if any.
    fn pending_index(&self, ip: &IpAddress) -> (res: Option<usize>)
        ensures
            match res {
                Some(i) => i < self.pending@.len() && self.pending@[i as int]@ == ip@,
                None => !self@.pending.contains(ip@),
            },
    {
        let mut i: usize = 0;
        while i < self.pending.len()
            invariant
                i <= self.pending@.len(),
                forall|j: int| 0 <= j < i ==> self.pending@[j]@ != ip@,
            decreases self.pending@.len() - i,
        {
            if same_ip(&self.pending[i], ip) {
                return Some(i);
            }
            i = i + 1;
        }
        proof {
            let vs = self.pending@.map_values(|a: IpAddress| a@);
            if vs.to_set().contains(ip@) {
                let j = choose|j: int| 0 <= j < vs.len() && vs[j] == ip@;
                assert(self.pending@[j]@ == ip@);
            }
        }
        None
    }

    /// The cached data of `ip`, if any. Never waits on a lookup.
    pub fn lookup(&self, ip: &IpAddress) -> (res: Option<Enrichment>)
        requires
            self.wf(),
        ensures
            match res {
                Some(e) => self@.cache.contains_key(ip@) && self@.cache[ip@] == e@,
                None => !self@.cache.contains_key(ip@),
            },
    {
        match self.cache_index(ip) {
            Some(i) => {
                proof {
                    lemma_entries_map_value(self.cache@, i as int);
                }
                Some(self.cache[i].data.clone())
            },
            None => None,
        }
    }

    /// Records that `ip` needs a background lookup, unless it is cached or queued
    /// already or the service has stopped. Returns whether a lookup job is to be sent.
    pub fn request(&mut self, ip: &IpAddress) -> (queue: bool)
        requires
            old(self).wf(),
        ensures
            final(self).wf(),
            queue == request_queues(old(self)@, ip@),
            final(self)@.pending == (if queue {
                old(self)@.pending.insert(ip@)
            } else {
                old(self)@.pending
            }),
            final(self)@.cache == old(self)@.cache,
            final(self)@.rdns_enabled == old(self)@.rdns_enabled,
            final(self)@.geoip_loaded == old(self)@.geoip_loaded,
            final(self)@.stopped == old(self)@.stopped,
    {
        if self.stopped {
            return false;
        }
        match self.cache_index(ip) {
            Some(i) => {
                proof {
                    lemma_entries_map_value(self.cache@, i as int);
                }
                return false;
            },
            None => {},
        }
        match self.pending_index(ip) {
            Some(i) => {
                proof {
                    let vs = self.pending@.map_values(|a: IpAddress| a@);
                    assert(vs[i as int] == ip@);
                    assert(vs.contains(ip@));
                }
                return false;
            },
            None => {},
        }
        let ghost before = self.pending@;
        self.pending.push(*ip);
        proof {
            let g = |a: IpAddress| a@;
            assert(self.pending@.map_values(g) =~= before.map_values(g).push(ip@));
            before.map_values(g).lemma_push_to_set_commute(ip@);
            assert(!before.map_values(g).contains(ip@));
            assert forall|a: int, b: int|
                0 <= a < b < self.pending@.len() implies self.pending@.map_values(g)[a]
                != self.pending@.map_values(g)[b] by {
                if b == self.pending@.len() - 1 {
                    assert(before.map_values(g)[a] == self.pending@.map_values(g)[a]);
                }
            }
        }
        true
    }

    /// Decorates `flows` with cached data and queues lookups for the misses; cheap
    /// enough for every snapshot tick. Flows toward private, loopback or special
    /// addresses, or whose destination is no IP address, are left alone and never
    /// queued. Returns the addresses newly queued, for which lookup jobs are to be sent.
    pub fn enrich_in_place(&mut self, flows: &mut [FlowRecord]) -> (queued: Vec<IpAddress>)
        requires
            old(self).wf(),
        ensures
            final(self).wf(),
            final(flows)@.len() == old(flows)@.len(),
            forall|i: int|
                0 <= i < old(flows)@.len() ==> decorated(
                    #[trigger] final(flows)@[i],
                    old(flows)@[i],
                    old(self)@.cache,
                ),
            final(self)@.cache == old(self)@.cache,
            final(self)@.pending == (if old(self)@.stopped {
                old(self)@.pending
            } else {
                old(self)@.pending + wanted(old(flows)@, old(self)@.cache)
            }),
            queued@.map_values(|a: IpAddress| a@) == (if old(self)@.stopped {
                Seq::<IpView>::empty()
            } else {
                new_targets(old(flows)@, old(self)@.cache, old(self)@.pending)
            }),
            ip_set(queued@) == (if old(self)@.stopped {
                Set::<IpView>::empty()
            } else {
                wanted(old(flows)@, old(self)@.cache) - old(self)@.pending
            }),
            queued@.map_values(|a: IpAddress| a@).no_duplicates(),
            final(self)@.rdns_enabled == old(self)@.rdns_enabled,
            final(self)@.geoip_loaded == old(self)@.geoip_loaded,
            final(self)@.stopped == old(self)@.stopped,
    {
        let ghost all = flows@;
        let ghost cache0 = self@.cache;
        let ghost p0 = self@.pending;
        let mut queued: Vec<IpAddress> = Vec::new();
        let n = flows.len();
        let mut i: usize = 0;
        proof {
            assert(queued@.map_values(|a: IpAddress| a@) =~= Seq::<IpView>::empty());
            assert(ip_set(queued@) =~= Set::<IpView>::empty());
            assert(all.subrange(0, 0) =~= Seq::<FlowRecord>::empty());
            assert(p0 + Set::<IpView>::empty() =~= p0);
            assert(Set::<IpView>::empty() - p0 =~= Set::<IpView>::empty());
        }
        while i < n
            invariant
                n == all.len(),
                i <= n,
                flows@.len() == n,
                self.wf(),
                forall|j: int| 0 <= j < i ==> decorated(#[trigger] flows@[j], all[j], cache0),
                forall|j: int| i <= j < n ==> #[trigger] flows@[j] == all[j],
                self@.cache == cache0,
                self@.rdns_enabled == old(self)@.rdns_enabled,
                self@.geoip_loaded == old(self)@.geoip_loaded,
                self@.stopped == old(self)@.stopped,
                self@.pending == (if self@.stopped {
                    p0
                } else {
                    p0 + wanted(all.subrange(0, i as int), cache0)
                }),
                ip_set(queued@) == (if self@.stopped {
                    Set::<IpView>::empty()
                } else {
                    wanted(all.subrange(0, i as int), cache0) - p0
                }),
                queued@.map_values(|a: IpAddress| a@) == (if self@.stopped {
                    Seq::<IpView>::empty()
                } else {
                    new_targets(all.subrange(0, i as int), cache0, p0)
                }),
                queued@.map_values(|a: IpAddress| a@).no_duplicates(),
            decreases n - i,
        {
            let ghost w = wanted(all.subrange(0, i as int), cache0);
            proof {
                assert(all.subrange(0, i + 1).drop_last() =~= all.subrange(0, i as int));
                assert(all.subrange(0, i + 1).last() == all[i as int]);
            }
            let target = match parse_ip(flows[i].dst_ip.as_str()) {
                Some(ip) => {
                    if is_private_or_loopback(&ip) {
                        None
                    } else {
                        Some(ip)
                    }
                },
                None => None,
            };
            assert(match target {
                Some(ip) => enrich_target(all[i as int]) == Some(ip@),
                None => enrich_target(all[i as int]) is None,
            });
            match target {
                Some(ip) => {
                    match self.lookup(&ip) {
                        Some(e) => {
                            let mut g = flows[i].clone();
                            if g.hostname.is_none() {
                                g.hostname = e.hostname;
                            }
                            if g.country.is_none() {
                                g.country = e.country;
                            }
                            flows[i] = g;
                            proof {
                                assert(wanted(all.subrange(0, i + 1), cache0) == w);
                            }
                        },
                        None => {
                            let ghost pend = self@.pending;
                            let ghost qbefore = queued@;
                            let q = self.request(&ip);
                            if q {
                                queued.push(ip);
                            }
                            proof {
                                let wn = wanted(all.subrange(0, i + 1), cache0);
                                assert(wn == w.insert(ip@));
                                if !self@.stopped {
                                    assert(self@.pending =~= p0 + wn);
                                    let g = |a: IpAddress| a@;
                                    if q {
                                        assert(queued@.map_values(g) =~= qbefore.map_values(g).push(ip@));
                                        qbefore.map_values(g).lemma_push_to_set_commute(ip@);
                                        assert(!qbefore.map_values(g).contains(ip@)) by {
                                            if qbefore.map_values(g).contains(ip@) {
                                                assert(qbefore.map_values(g).to_set().contains(ip@));
                                            }
                                        }
                                        assert forall|a: int, b: int|
                                            0 <= a < b < queued@.len() implies queued@.map_values(g)[a]
                                            != queued@.map_values(g)[b] by {
                                            if b == queued@.len() - 1 {
                                                assert(queued@.map_values(g)[a] == qbefore.map_values(g)[a]);
                                            }
                                        }
                                    }
                                    assert(ip_set(queued@) =~= wn - p0);
                                } else {
                                    assert(self@.pending == p0);
                                }
                            }
                        },
                    }
                },
                None => {
                    proof {
                        assert(wanted(all.subrange(0, i + 1), cache0) == w);
                    }
                },
            }
            i = i + 1;
        }
        proof {
            assert(all.subrange(0, n as int) =~= all);
        }
        queued
    }

    /// Keeps the cache entries whose data has a hostname (`by_hostname`) or a country.
    fn retain_cache(&mut self, by_hostname: bool)
        requires
            old(self).wf(),
        ensures
            final(self).wf(),
            final(self)@.cache == kept(old(self)@.cache, by_hostname),
            final(self).pending == old(self).pending,
            final(self).rdns_enabled == old(self).rdns_enabled,
            final(self).geoip_loaded == old(self).geoip_loaded,
            final(self).stopped == old(self).stopped,
    {
        let mut old_entries: Vec<CacheEntry> = Vec::new();
        std::mem::swap(&mut old_entries, &mut self.cache);
        let ghost all = old_entries@;
        let n = old_entries.len();
        let mut i: usize = 0;
        while i < n
            invariant
                n == all.len(),
                all == old_entries@,
                i <= n,
                entry_keys(all).no_duplicates(),
                entry_keys(self.cache@).no_duplicates(),
                entry_keys(self.cache@).to_set().subset_of(entry_keys(all.subrange(0, i as int)).to_set()),
                entries_map(self.cache@) == kept(entries_map(all.subrange(0, i as int)), by_hostname),
                self.pending == old(self).pending,
                self.rdns_enabled == old(self).rdns_enabled,
                self.geoip_loaded == old(self).geoip_loaded,
                self.stopped == old(self).stopped,
                old(self).wf(),
            decreases n - i,
        {
            let ghost before = self.cache@;
            let ghost prefix = all.subrange(0, i as int);
            let ghost next = all.subrange(0, i + 1);
            let ghost k = all[i as int].ip@;
            let ghost v = all[i as int].data@;
            proof {
                assert(next.drop_last() =~= prefix);
                assert(entries_map(next) == entries_map(prefix).insert(k, v));
                lemma_entries_map_dom(prefix);
                lemma_entries_map_dom(before);
                if entry_keys(prefix).to_set().contains(k) {
                    let j = choose|j: int| 0 <= j < entry_keys(prefix).len() && entry_keys(prefix)[j] == k;
                    assert(entry_keys(all)[j] == entry_keys(all)[i as int]);
                }
                assert(!entries_map(prefix).contains_key(k));
                assert(entry_keys(next) =~= entry_keys(prefix).push(k));
                entry_keys(prefix).lemma_push_to_set_commute(k);
            }
            let keep = if by_hostname {
                old_entries[i].data.hostname.is_some()
            } else {
                old_entries[i].data.country.is_some()
            };
            if keep {
                let e = CacheEntry { ip: old_entries[i].ip, data: old_entries[i].data.clone() };
                self.cache.push(e);
                proof {
                    assert(entry_keys(self.cache@) =~= entry_keys(before).push(k));
                    entry_keys(before).lemma_push_to_set_commute(k);
                    assert(!entry_keys(before).to_set().contains(k));
                    assert(!entry_keys(before).contains(k)) by {
                        if entry_keys(before).contains(k) {
                            let j = choose|j: int| 0 <= j < entry_keys(before).len() && entry_keys(before)[j] == k;
                            assert(entry_keys(before).to_set().contains(entry_keys(before)[j]));
                        }
                    }
                    assert forall|a: int, b: int|
                        0 <= a < b < entry_keys(self.cache@).len() implies entry_keys(self.cache@)[a]
                        != entry_keys(self.cache@)[b] by {
                        if b == entry_keys(self.cache@).len() - 1 {
                            assert(entry_keys(self.cache@)[a] == entry_keys(before)[a]);
                        }
                    }
                    assert(self.cache@.drop_last() =~= before);
                    assert(entries_map(self.cache@) =~= kept(entries_map(next), by_hostname));
                }
            } else {
                proof {
                    assert(entries_map(self.cache@) =~= kept(entries_map(next), by_hostname));
                }
            }
            i = i + 1;
        }
        proof {
            assert(all.subrange(0, n as int) =~= all);
        }
    }

    /// Whether reverse DNS lookups are made.
    pub fn rdns_enabled(&self) -> (res: bool)
        ensures
            res == self@.rdns_enabled,
    {
        self.rdns_enabled
    }

    /// Switches reverse DNS lookups on or off. On an off-to-on switch, cache entries
    /// without a hostname are dropped, so that the next pass queues them again: addresses
    /// first seen while lookups were off would otherwise stay nameless.
    pub fn set_rdns_enabled(&mut self, enabled: bool)
        requires
            old(self).wf(),
        ensures
            final(self).wf(),
            final(self)@.rdns_enabled == enabled,
            final(self)@.cache == (if enabled && !old(self)@.rdns_enabled {
                with_hostname(old(self)@.cache)
            } else {
                old(self)@.cache
            }),
            final(self)@.pending == old(self)@.pending,
            final(self)@.geoip_loaded == old(self)@.geoip_loaded,
            final(self)@.stopped == old(self)@.stopped,
    {
        let prev = self.rdns_enabled;
        self.rdns_enabled = enabled;
        if enabled && !prev {
            self.retain_cache(true);
            assert(kept(old(self)@.cache, true) =~= with_hostname(old(self)@.cache));
        }
    }

    /// Whether a GeoIP database is in use.
    pub fn geoip_loaded(&self) -> (res: bool)
        ensures
            res == self@.geoip_loaded,
    {
        self.geoip_loaded
    }

    /// Records that a GeoIP database was (re)loaded. Cache entries without a country
    /// are dropped, so that the next pass queues them again for the new database;
    /// entries with a country from an earlier database stay.
    pub fn geoip_db_loaded(&mut self)
        requires
            old(self).wf(),
        ensures
            final(self).wf(),
            final(self)@.geoip_loaded,
            final(self)@.cache == with_country(old(self)@.cache),
            final(self)@.pending == old(self)@.pending,
            final(self)@.rdns_enabled == old(self)@.rdns_enabled,
            final(self)@.stopped == old(self)@.stopped,
    {
        self.geoip_loaded = true;
        self.retain_cache(false);
        assert(kept(old(self)@.cache, false) =~= with_country(old(self)@.cache));
    }

    /// Records that the GeoIP database was dropped.
    pub fn clear_geoip(&mut self)
        ensures
            !final(self)@.geoip_loaded,
            final(self)@.cache == old(self)@.cache,
            final(self)@.pending == old(self)@.pending,
            final(self)@.rdns_enabled == old(self)@.rdns_enabled,
            final(self)@.stopped == old(self)@.stopped,
            final(self).wf() == old(self).wf(),
    {
        self.geoip_loaded = false;
    }

    /// Forgets all cached data and queued addresses.
    pub fn clear_cache(&mut self)
        ensures
            final(self).wf(),
            final(self)@.cache == Map::<IpView, EnrichView>::empty(),
            final(self)@.pending == Set::<IpView>::empty(),
            final(self)@.rdns_enabled == old(self)@.rdns_enabled,
            final(self)@.geoip_loaded == old(self)@.geoip_loaded,
            final(self)@.stopped == old(self)@.stopped,
    {
        self.cache = Vec::new();
        self.pending = Vec::new();
        proof {
            assert(self.pending@.map_values(|a: IpAddress| a@) =~= Seq::<IpView>::empty());
            assert(ip_set(self.pending@) =~= Set::<IpView>::empty());
        }
    }

    /// Marks the service as shut down: nothing is queued afterwards.
    pub fn stop(&mut self)
        ensures
            final(self)@.stopped,
            final(self)@.cache == old(self)@.cache,
            final(self)@.pending == old(self)@.pending,
            final(self)@.rdns_enabled == old(self)@.rdns_enabled,
            final(self)@.geoip_loaded == old(self)@.geoip_loaded,
            final(self).wf() == old(self).wf(),
    {
        self.stopped = true;
    }

    /// Counters for display: cached addresses, queued addresses and the switches.
    pub fn stats(&self) -> (res: EnrichmentSnapshot)
        requires
            self.wf(),
        ensures
            res.cached_entries == self@.cache.len(),
            res.queue_depth == self@.pending.len(),
            res.geoip_loaded == self@.geoip_loaded,
            res.rdns_enabled == self@.rdns_enabled,
    {
        proof {
            lemma_entries_map_dom(self.cache@);
            entry_keys(self.cache@).unique_seq_to_set();
            self.pending@.map_values(|a: IpAddress| a@).unique_seq_to_set();
        }
        EnrichmentSnapshot {
            cached_entries: self.cache.len(),
            queue_depth: self.pending.len(),
            geoip_loaded: self.geoip_loaded,
            rdns_enabled: self.rdns_enabled,
        }
    }

    /// Stores the result of a background lookup of `ip` and takes `ip` off the queue.
    pub fn complete_lookup(&mut self, ip: &IpAddress, entry: Enrichment)
        requires
            old(self).wf(),
        ensures
            final(self).wf(),
            final(self)@.cache == old(self)@.cache.insert(ip@, entry@),
            final(self)@.pending == old(self)@.pending.remove(ip@),
            final(self)@.rdns_enabled == old(self)@.rdns_enabled,
            final(self)@.geoip_loaded == old(self)@.geoip_loaded,
            final(self)@.stopped == old(self)@.stopped,
    {
        let ghost before = self.cache@;
        let ghost v = entry@;
        match self.cache_index(ip) {
            Some(i) => {
                let x = CacheEntry { ip: *ip, data: entry };
                self.cache.set(i, x);
                proof {
                    lemma_entries_map_update(before, i as int, x);
                }
            },
            None => {
                self.cache.push(CacheEntry { ip: *ip, data: entry });
                proof {
                    assert(self.cache@.drop_last() =~= before);
                    lemma_entries_map_dom(before);
                    assert(!entry_keys(before).contains(ip@)) by {
                        if entry_keys(before).contains(ip@) {
                            let j = choose|j: int| 0 <= j < entry_keys(before).len() && entry_keys(before)[j] == ip@;
                            assert(entry_keys(before).to_set().contains(entry_keys(before)[j]));
                        }
                    }
                    assert(entry_keys(self.cache@) =~= entry_keys(before).push(ip@));
                    assert forall|a: int, b: int|
                        0 <= a < b < entry_keys(self.cache@).len() implies entry_keys(self.cache@)[a]
                        != entry_keys(self.cache@)[b] by {
                        if b == entry_keys(self.cache@).len() - 1 {
                            assert(entry_keys(self.cache@)[a] == entry_keys(before)[a]);
                        }
                    }
                }
            },
        }
        let ghost pend = self.pending@;
        match self.pending_index(ip) {
            Some(i) => {
                self.pending.remove(i);
                proof {
                    let g = |a: IpAddress| a@;
                    let vs = pend.map_values(g);
                    assert(self.pending@.map_values(g) =~= vs.remove(i as int));
                    assert(vs.no_duplicates());
                    assert(vs[i as int] == ip@);
                    assert forall|x: IpView| #[trigger] vs.remove(i as int).to_set().contains(x) <==> vs.to_set().remove(ip@).contains(x) by {
                        if vs.remove(i as int).to_set().contains(x) {
                            let j = choose|j: int| 0 <= j < vs.remove(i as int).len() && vs.remove(i as int)[j] == x;
                            if j < i {
                                assert(vs[j] == x);
                                assert(vs[j] != vs[i as int]);
                            } else {
                                assert(vs[j + 1] == x);
                                assert(vs[j + 1] != vs[i as int]);
                            }
                            assert(vs.contains(x));
                        }
                        if vs.to_set().remove(ip@).contains(x) {
                            let j = choose|j: int| 0 <= j < vs.len() && vs[j] == x;
                            assert(j != i);
                            if j < i {
                                assert(vs.remove(i as int)[j] == x);
                            } else {
                                assert(vs.remove(i as int)[j - 1] == x);
                            }
                        }
                    }
                    assert(vs.remove(i as int).to_set() =~= vs.to_set().remove(ip@));
                    assert forall|a: int, b: int|
                        0 <= a < b < vs.remove(i as int).len() implies vs.remove(i as int)[a]
                        != vs.remove(i as int)[b] by {
                        let a2 = if a < i { a } else { a + 1 };
                        let b2 = if b < i { b } else { b + 1 };
                        assert(vs.remove(i as int)[a] == vs[a2]);
                        assert(vs.remove(i as int)[b] == vs[b2]);
                    }
                }
            },
            None => {
                proof {
                    assert(ip_set(pend) =~= ip_set(pend).remove(ip@));
                }
            },
        }
    }
}

/// What a reverse lookup reports for `ip`, given what the resolver returned: nothing
/// for an empty name or for the address text itself.
pub fn reverse_name_result(name: Option<String>, ip: &IpAddress) -> (res: Option<String>)
    ensures
        opt_text(res) == reverse_name(opt_text(name), ip@),
{
    match name {
        Some(n) => {
            let text = ip_to_string(ip);
            let (_, same) = compare_text(n.as_str(), text.as_str());
            if n.as_str().is_empty() || same {
                None
            } else {
                Some(n)
            }
        },
        None => None,
    }
}

/// Each address gets one lookup job until its result arrives: right after a request for
/// `ip`, whether it queued a job or not, another request for `ip` queues nothing.
pub proof fn lemma_request_once(st: EnrichmentCacheView, ip: IpView)
    ensures
        !request_queues(
            EnrichmentCacheView {
                pending: if request_queues(st, ip) {
                    st.pending.insert(ip)
                } else {
                    st.pending
                },
                ..st
            },
            ip,
        ),
{
}

/// A completed lookup is read back: after the result `e` for `ip` is stored, the cache
/// gives `e` for `ip`, and a request for `ip` queues nothing.
pub proof fn lemma_completed_lookup_read_back(st: EnrichmentCacheView, ip: IpView, e: EnrichView)
    ensures
        st.cache.insert(ip, e).contains_key(ip),
        st.cache.insert(ip, e)[ip] == e,
        !request_queues(
            EnrichmentCacheView { cache: st.cache.insert(ip, e), pending: st.pending.remove(ip), ..st },
            ip,
        ),
{
}

/// Lookups are never wasted on private space: every address that an enrichment pass
/// asks for is the destination of one of the flows, reads as an IP address, lies outside
/// the private, loopback and special ranges, and has no cached data.
pub proof fn lemma_wanted_targets(flows: Seq<FlowRecord>, cache: Map<IpView, EnrichView>, ip: IpView)
    requires
        wanted(flows, cache).contains(ip),
    ensures
        !private_or_loopback(ip),
        !cache.contains_key(ip),
        exists|i: int| 0 <= i < flows.len() && ip_parse(#[trigger] flows[i].dst_ip@) == Some(ip),
    decreases flows.len(),
{
    let rest = flows.drop_last();
    if wanted(rest, cache).contains(ip) {
        lemma_wanted_targets(rest, cache, ip);
        let i = choose|i: int| 0 <= i < rest.len() && ip_parse(#[trigger] rest[i].dst_ip@) == Some(ip);
        assert(flows[i] == rest[i]);
    } else {
        assert(flows[flows.len() - 1] == flows.last());
    }
}

/// Decorating flows changes no target, so the addresses asked for stay the same.
proof fn lemma_wanted_decorated(
    flows: Seq<FlowRecord>,
    decorated_flows: Seq<FlowRecord>,
    cache: Map<IpView, EnrichView>,
)
    requires
        decorated_flows.len() == flows.len(),
        forall|i: int| 0 <= i < flows.len() ==> decorated(#[trigger] decorated_flows[i], flows[i], cache),
    ensures
        wanted(decorated_flows, cache) == wanted(flows, cache),
    decreases flows.len(),
{
    if flows.len() > 0 {
        let n = flows.len() - 1;
        assert forall|i: int| 0 <= i < n implies decorated(
            #[trigger] decorated_flows.drop_last()[i],
            flows.drop_last()[i],
            cache,
        ) by {
            assert(decorated_flows.drop_last()[i] == decorated_flows[i]);
            assert(flows.drop_last()[i] == flows[i]);
        }
        lemma_wanted_decorated(flows.drop_last(), decorated_flows.drop_last(), cache);
        assert(decorated(decorated_flows[n], flows[n], cache));
        assert(decorated_flows[n].dst_ip == flows[n].dst_ip);
    }
}

/// Enriching a flow table twice in a row queues nothing the second time: the first pass
/// queued every address the second pass could ask for, and decorating the flows changed
/// none of their destinations.
pub proof fn lemma_second_pass_queues_nothing(
    flows: Seq<FlowRecord>,
    decorated_flows: Seq<FlowRecord>,
    cache: Map<IpView, EnrichView>,
    pending: Set<IpView>,
)
    requires
        decorated_flows.len() == flows.len(),
        forall|i: int| 0 <= i < flows.len() ==> decorated(#[trigger] decorated_flows[i], flows[i], cache),
    ensures
        wanted(decorated_flows, cache) - (pending + wanted(flows, cache)) == Set::<IpView>::empty(),
{
    lemma_wanted_decorated(flows, decorated_flows, cache);
    assert(wanted(decorated_flows, cache) - (pending + wanted(flows, cache)) =~= Set::<IpView>::empty());
}

} // verus!
