use chrono::{DateTime, TimeZone, Utc};
use scan_store::{
    create_scan, delete_scan, get_all_scans, get_scan, rocket, update_scan, Body, Scan, Store,
    Timestamp,
};

fn stamp(t: DateTime<Utc>) -> Timestamp {
    Timestamp::new(t.timestamp(), t.timestamp_subsec_nanos())
}

fn at(y: i32, mo: u32, d: u32, h: u32, mi: u32, s: u32) -> Timestamp {
    stamp(Utc.with_ymd_and_hms(y, mo, d, h, mi, s).unwrap())
}

fn scan(ip: &str, port: i16, hash: &str, load: i64, ts: Timestamp) -> Scan {
    Scan::new(ip.to_owned(), port, load, hash.to_owned(), ts)
}

fn records(body: Body) -> Vec<Scan> {
    match body {
        Body::Records(v) => v,
        _ => panic!("expected a listing"),
    }
}

fn record(body: Body) -> Option<Scan> {
    match body {
        Body::Record(r) => r,
        _ => panic!("expected a record"),
    }
}

#[test]
fn service_starts_empty_on_its_port() {
    let svc = rocket();
    assert_eq!(svc.port, 8080);
    assert_eq!(svc.mount, "/v1/scans");
    assert_eq!(svc.store.get_all().len(), 0);
}

#[test]
fn end_to_end_scenario() {
    let mut store = rocket().store;

    let reply = get_all_scans(&store);
    assert_eq!(reply.status, 200);
    assert_eq!(records(reply.body).len(), 0);

    let scan0 = scan("8.8.8.8", 80, "foobar", 100, at(2022, 7, 31, 16, 26, 16));
    let scan1 = scan("1.1.1.1", 443, "barfoo", 231, at(2022, 6, 20, 17, 10, 32));
    let scan1_update = scan("1.1.1.1", 443, "bazbarfoo", 8912, at(2022, 6, 20, 17, 10, 32));

    assert_eq!(create_scan(&mut store, scan0.clone()).status, 201);
    assert_eq!(create_scan(&mut store, scan0.clone()).status, 400);
    assert_eq!(create_scan(&mut store, scan1).status, 201);

    let all = records(get_all_scans(&store).body);
    assert_eq!(all.len(), 2);
    assert_eq!(all[0].ip, "1.1.1.1");

    let reply = get_scan(&store, "8.8.8.8", 80);
    assert_eq!(reply.status, 200);
    let s = record(reply.body).unwrap();
    assert_eq!(s.ip, "8.8.8.8");
    assert_eq!(s.port, 80);
    assert_eq!(s.content_hash, "foobar");
    assert_eq!(s.load_time_nanosec, 100);
    assert_eq!(s.timestamp, at(2022, 7, 31, 16, 26, 16));

    let s = record(get_scan(&store, "1.1.1.1", 443).body).unwrap();
    assert_eq!(s.ip, "1.1.1.1");
    assert_eq!(s.port, 443);
    assert_eq!(s.content_hash, "barfoo");
    assert_eq!(s.load_time_nanosec, 231);
    assert_eq!(s.timestamp, at(2022, 6, 20, 17, 10, 32));

    assert!(record(get_scan(&store, "1.1.1.1", 80).body).is_none());

    assert_eq!(update_scan(&mut store, scan1_update).status, 200);
    let s = record(get_scan(&store, "1.1.1.1", 443).body).unwrap();
    assert_eq!(s.ip, "1.1.1.1");
    assert_eq!(s.port, 443);
    assert_eq!(s.content_hash, "bazbarfoo");
    assert_eq!(s.load_time_nanosec, 8912);
    assert_eq!(s.timestamp, at(2022, 6, 20, 17, 10, 32));

    let absent = scan("8.8.8.8", 443, "bazbarfoo", 8912, at(2022, 6, 20, 17, 10, 32));
    assert_eq!(update_scan(&mut store, absent).status, 400);

    assert_eq!(delete_scan(&mut store, "8.8.8.8", 80).status, 200);
    assert_eq!(delete_scan(&mut store, "1.1.1.1", 443).status, 200);

    assert_eq!(records(get_all_scans(&store).body).len(), 0);
}

#[test]
fn delete_of_absent_key_is_refused() {
    let mut store = Store::new();
    let reply = delete_scan(&mut store, "8.8.8.8", 80);
    assert_eq!(reply.status, 400);
    assert!(matches!(reply.body, Body::Empty));
}

#[test]
fn writes_carry_no_body() {
    let mut store = Store::new();
    let s = scan("8.8.8.8", 80, "foobar", 100, Timestamp::new(0, 0));
    assert!(matches!(create_scan(&mut store, s.clone()).body, Body::Empty));
    assert!(matches!(update_scan(&mut store, s).body, Body::Empty));
    assert!(matches!(delete_scan(&mut store, "8.8.8.8", 80).body, Body::Empty));
}

#[test]
fn refused_request_is_bad_request() {
    let reply = scan_store::refused();
    assert_eq!(reply.status, 400);
    assert!(matches!(reply.body, Body::Empty));
}
