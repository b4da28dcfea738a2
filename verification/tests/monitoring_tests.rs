use lsm5::monitoring::{route_request, MonitoringServer, Route};
use std::sync::atomic::Ordering;

#[test]
fn test_monitoring_server() {
    let server = MonitoringServer::new(19001);
    let _ = server;
}

#[test]
fn monitoring_counters_are_shared() {
    let mut server = MonitoringServer::new(19002);
    assert_eq!(server.port(), 19002);
    let c = server.counters();
    server.record_read(true);
    server.record_read(false);
    server.record_read(false);
    server.record_write();
    server.record_flush();
    server.record_compaction();
    assert_eq!(c.reads.load(Ordering::Relaxed), 3);
    assert_eq!(c.cache_hits.load(Ordering::Relaxed), 1);
    assert_eq!(c.cache_misses.load(Ordering::Relaxed), 2);
    assert_eq!(c.writes.load(Ordering::Relaxed), 1);
    assert_eq!(c.flushes.load(Ordering::Relaxed), 1);
    assert_eq!(c.compactions.load(Ordering::Relaxed), 1);
    assert!(server.begin_start());
    assert!(!server.begin_start());
}

#[test]
fn monitoring_routes() {
    assert_eq!(route_request(b"GET /stats HTTP/1.1\r\n"), Route::Stats);
    assert_eq!(route_request(b"GET /cache HTTP/1.1\r\n"), Route::Cache);
    assert_eq!(route_request(b"GET /health HTTP/1.1\r\n"), Route::Health);
    assert_eq!(route_request(b"GET / HTTP/1.1\r\n"), Route::Index);
    assert_eq!(route_request(b"GET /stats"), Route::NotFound);
    assert_eq!(route_request(b"POST /stats HTTP/1.1"), Route::NotFound);
    assert_eq!(route_request(b""), Route::NotFound);
}
