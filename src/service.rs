use vstd::prelude::*;

use crate::listing::{lookup, upsert, without};
use crate::scan::{opt_view, views, Scan, ScanView};
use crate::store::Store;

verus! {

/// The request succeeded.
pub const OK: u16 = 200;

/// The request stored a new record.
pub const CREATED: u16 = 201;

/// The request was refused.
pub const BAD_REQUEST: u16 = 400;

/// The port the service listens on.
pub const PORT: u16 = 8080;

/// What a reply carries besides its status.
pub enum Body {
    /// Nothing.
    Empty,
    /// A listing of records.
    Records(Vec<Scan>),
    /// One record, or none.
    Record(Option<Scan>),
}

/// The answer to one request: a status code and a body.
pub struct Reply {
    pub status: u16,
    pub body: Body,
}

/// The body carries nothing.
pub open spec fn is_empty_body(b: Body) -> bool {
    b is Empty
}

/// The body carries exactly the listing `s`.
pub open spec fn carries_records(b: Body, s: Seq<ScanView>) -> bool {
    match b {
        Body::Records(v) => views(v@) == s,
        _ => false,
    }
}

/// The body carries exactly the optional record `o`.
pub open spec fn carries_record(b: Body, o: Option<ScanView>) -> bool {
    match b {
        Body::Record(x) => opt_view(x) == o,
        _ => false,
    }
}

/// A service ready to be served: its port, the path its routes are mounted under,
/// and the store its requests work on.
pub struct Service {
    pub port: u16,
    pub mount: String,
    pub store: Store,
}

/// The service with an empty store, served on port 8080 under `/v1/scans`.
pub fn rocket() -> (r: Service)
    ensures
        r.port == 8080,
        r.mount@ == "/v1/scans"@,
        r.store@ == Seq::<ScanView>::empty(),
{
    Service { port: PORT, mount: "/v1/scans".to_owned(), store: Store::new() }
}

/// The answer to a request that is malformed, such as a port that is no 16-bit integer.
pub fn refused() -> (r: Reply)
    ensures
        r.status == BAD_REQUEST,
        is_empty_body(r.body),
{
    Reply { status: BAD_REQUEST, body: Body::Empty }
}

/// Lists every record, ordered by timestamp.
pub fn get_all_scans(store: &Store) -> (r: Reply)
    ensures
        r.status == OK,
        carries_records(r.body, store@),
{
    Reply { status: OK, body: Body::Records(store.get_all()) }
}

/// Reads the record under (`ip`, `port`); a missing record is no error.
pub fn get_scan(store: &Store, ip: &str, port: i16) -> (r: Reply)
    ensures
        r.status == OK,
        carries_record(r.body, lookup(store@, ip@, port)),
{
    Reply { status: OK, body: Body::Record(store.get_record(ip, port)) }
}

/// Stores a new record; refused where its key already holds one.
pub fn create_scan(store: &mut Store, scan: Scan) -> (r: Reply)
    ensures
        is_empty_body(r.body),
        lookup(old(store)@, scan@.ip, scan.port) is None ==> r.status == CREATED
            && final(store)@ == upsert(old(store)@, scan@),
        lookup(old(store)@, scan@.ip, scan.port) is Some ==> r.status == BAD_REQUEST
            && final(store)@ == old(store)@,
{
    let status = match store.create_record(scan) {
        Ok(()) => CREATED,
        Err(_) => BAD_REQUEST,
    };
    Reply { status, body: Body::Empty }
}

/// Replaces a stored record; refused where its key holds none.
pub fn update_scan(store: &mut Store, scan: Scan) -> (r: Reply)
    ensures
        is_empty_body(r.body),
        lookup(old(store)@, scan@.ip, scan.port) is Some ==> r.status == OK
            && final(store)@ == upsert(old(store)@, scan@),
        lookup(old(store)@, scan@.ip, scan.port) is None ==> r.status == BAD_REQUEST
            && final(store)@ == old(store)@,
{
    let status = match store.update_record(scan) {
        Ok(()) => OK,
        Err(_) => BAD_REQUEST,
    };
    Reply { status, body: Body::Empty }
}

/// Deletes the record under (`ip`, `port`); refused where there is none.
pub fn delete_scan(store: &mut Store, ip: &str, port: i16) -> (r: Reply)
    ensures
        is_empty_body(r.body),
        lookup(old(store)@, ip@, port) is Some ==> r.status == OK
            && final(store)@ == without(old(store)@, ip@, port),
        lookup(old(store)@, ip@, port) is None ==> r.status == BAD_REQUEST
            && final(store)@ == old(store)@,
{
    let status = match store.delete_record(ip, port) {
        Ok(()) => OK,
        Err(_) => BAD_REQUEST,
    };
    Reply { status, body: Body::Empty }
}

} // verus!
