//! Operation counters shared with the HTTP monitoring endpoint, and the
//! routing of its requests.  Serving the requests is the caller's part.
use vstd::prelude::*;
use std::sync::Arc;
use std::sync::atomic::AtomicU64;
use std::sync::atomic::Ordering;

verus! {

/// The endpoints of the monitoring server.
#[derive(Clone, Copy, Debug, PartialEq, Eq)]
pub enum Route {
    Stats,
    Cache,
    Health,
    Index,
    NotFound,
}

/// Whether `b` starts with `p`.
pub open spec fn has_prefix(b: Seq<u8>, p: Seq<u8>) -> bool {
    b.len() >= p.len() && b.subrange(0, p.len() as int) == p
}

/// The route of a request, by its first line.
pub open spec fn spec_route(req: Seq<u8>) -> Route {
    if has_prefix(req, "GET /stats "@.map_values(|c: char| c as u8)) {
        Route::Stats
    } else if has_prefix(req, "GET /cache "@.map_values(|c: char| c as u8)) {
        Route::Cache
    } else if has_prefix(req, "GET /health "@.map_values(|c: char| c as u8)) {
        Route::Health
    } else if has_prefix(req, "GET / "@.map_values(|c: char| c as u8)) {
        Route::Index
    } else {
        Route::NotFound
    }
}

fn starts_with_str(b: &[u8], p: &str) -> (r: bool)
    requires
        p.is_ascii(),
    ensures
        r == has_prefix(b@, p@.map_values(|c: char| c as u8)),
{
    let pb = p.as_bytes();
    proof {
        assert(pb@ =~= p@.map_values(|c: char| c as u8));
    }
    if pb.len() > b.len() {
        return false;
    }
    let mut i: usize = 0;
    while i < pb.len()
        invariant
            i <= pb@.len(),
            pb@.len() <= b@.len(),
            pb@ == p@.map_values(|c: char| c as u8),
            forall|j: int| 0 <= j < i ==> b@[j] == pb@[j],
        decreases pb@.len() - i,
    {
        if b[i] != pb[i] {
            proof {
                assert(b@.subrange(0, pb@.len() as int)[i as int] != pb@[i as int]);
            }
            return false;
        }
        i = i + 1;
    }
    assert(b@.subrange(0, pb@.len() as int) =~= pb@);
    true
}

/// The endpoint a raw request asks for (matched on its bytes, which agrees
/// with matching the request read as text, the prefixes being ASCII).
pub fn route_request(request: &[u8]) -> (r: Route)
    ensures
        r == spec_route(request@),
{
    proof {
        reveal_strlit("GET /stats ");
        reveal_strlit("GET /cache ");
        reveal_strlit("GET /health ");
        reveal_strlit("GET / ");
    }
    if starts_with_str(request, "GET /stats ") {
        Route::Stats
    } else if starts_with_str(request, "GET /cache ") {
        Route::Cache
    } else if starts_with_str(request, "GET /health ") {
        Route::Health
    } else if starts_with_str(request, "GET / ") {
        Route::Index
    } else {
        Route::NotFound
    }
}

/// Calls `Arc::clone`: another handle on the same counter.
#[verifier::external_body]
pub(crate) fn share_counter(c: &Arc<AtomicU64>) -> (r: Arc<AtomicU64>)
    ensures
        r == *c,
{
    Arc::clone(c)
}

/// Handles on the six counters.
pub struct Counters {
    pub reads: Arc<AtomicU64>,
    pub writes: Arc<AtomicU64>,
    pub flushes: Arc<AtomicU64>,
    pub compactions: Arc<AtomicU64>,
    pub cache_hits: Arc<AtomicU64>,
    pub cache_misses: Arc<AtomicU64>,
}

/// The monitoring server's state: its port, whether it was started, and the
/// counters it reports.
pub struct MonitoringServer {
    port: u16,
    running: bool,
    reads: Arc<AtomicU64>,
    writes: Arc<AtomicU64>,
    flushes: Arc<AtomicU64>,
    compactions: Arc<AtomicU64>,
    cache_hits: Arc<AtomicU64>,
    cache_misses: Arc<AtomicU64>,
}

impl MonitoringServer {
    pub closed spec fn port_spec(&self) -> u16 {
        self.port
    }

    /// The handles are on this server's counters.
    pub closed spec fn shares(&self, c: Counters) -> bool {
        c.reads == self.reads && c.writes == self.writes && c.flushes == self.flushes
            && c.compactions == self.compactions && c.cache_hits == self.cache_hits
            && c.cache_misses == self.cache_misses
    }

    pub closed spec fn running_spec(&self) -> bool {
        self.running
    }

    /// A server for `port`, not yet started, with all counters at zero.
    pub fn new(port: u16) -> (s: MonitoringServer)
        ensures
            s.port_spec() == port,
            !s.running_spec(),
    {
        MonitoringServer {
            port,
            running: false,
            reads: Arc::new(AtomicU64::new(0)),
            writes: Arc::new(AtomicU64::new(0)),
            flushes: Arc::new(AtomicU64::new(0)),
            compactions: Arc::new(AtomicU64::new(0)),
            cache_hits: Arc::new(AtomicU64::new(0)),
            cache_misses: Arc::new(AtomicU64::new(0)),
        }
    }

    pub fn port(&self) -> (r: u16)
        ensures
            r == self.port_spec(),
    {
        self.port
    }

    /// Mark the server as started; `false` when it already was (and then
    /// nothing is to be started).
    pub fn begin_start(&mut self) -> (r: bool)
        ensures
            r == !old(self).running_spec(),
            final(self).running_spec(),
            final(self).port_spec() == old(self).port_spec(),
    {
        if self.running {
            return false;
        }
        self.running = true;
        true
    }

    /// Handles on the counters, for the thread that serves requests.
    pub fn counters(&self) -> (c: Counters)
        ensures
            self.shares(c),
    {
        Counters {
            reads: share_counter(&self.reads),
            writes: share_counter(&self.writes),
            flushes: share_counter(&self.flushes),
            compactions: share_counter(&self.compactions),
            cache_hits: share_counter(&self.cache_hits),
            cache_misses: share_counter(&self.cache_misses),
        }
    }

    /// Count a read, and a cache hit or miss.
    pub fn record_read(&self, hit: bool) {
        if hit {
            self.cache_hits.fetch_add(1, Ordering::Relaxed);
        } else {
            self.cache_misses.fetch_add(1, Ordering::Relaxed);
        }
        self.reads.fetch_add(1, Ordering::Relaxed);
    }

    pub fn record_write(&self) {
        self.writes.fetch_add(1, Ordering::Relaxed);
    }

    pub fn record_flush(&self) {
        self.flushes.fetch_add(1, Ordering::Relaxed);
    }

    pub fn record_compaction(&self) {
        self.compactions.fetch_add(1, Ordering::Relaxed);
    }
}

} // verus!
