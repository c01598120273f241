use vstd::prelude::*;

verus! {

/// An instant in UTC, as whole seconds since the Unix epoch and the nanoseconds
/// past that second.
///
/// Instants are ordered by `secs`, then by `nanos`.
#[derive(Clone, Copy, Debug, PartialEq, Eq, Structural)]
pub struct Timestamp {
    pub secs: i64,
    pub nanos: u32,
}

/// `a` is not later than `b`.
pub open spec fn time_le(a: Timestamp, b: Timestamp) -> bool {
    a.secs < b.secs || (a.secs == b.secs && a.nanos <= b.nanos)
}

impl Timestamp {
    pub fn new(secs: i64, nanos: u32) -> (r: Timestamp)
        ensures
            r.secs == secs,
            r.nanos == nanos,
    {
        Timestamp { secs, nanos }
    }

    /// Whether this instant comes no later than `other`.
    pub fn not_after(&self, other: &Timestamp) -> (r: bool)
        ensures
            r == time_le(*self, *other),
    {
        self.secs < other.secs || (self.secs == other.secs && self.nanos <= other.nanos)
    }
}

/// The result of one scan of a host: where it was taken, what was seen, and when.
#[derive(Clone, Debug)]
pub struct Scan {
    pub ip: String,
    pub port: i16,
    pub load_time_nanosec: i64,
    pub content_hash: String,
    pub timestamp: Timestamp,
}

/// A scan as a mathematical value.
pub struct ScanView {
    pub ip: Seq<char>,
    pub port: i16,
    pub load_time_nanosec: i64,
    pub content_hash: Seq<char>,
    pub timestamp: Timestamp,
}

impl ScanView {
    /// The record is stored under the key (`ip`, `port`).
    pub open spec fn has_key(self, ip: Seq<char>, port: i16) -> bool {
        self.ip == ip && self.port == port
    }
}

impl View for Scan {
    type V = ScanView;

    open spec fn view(&self) -> ScanView {
        ScanView {
            ip: self.ip@,
            port: self.port,
            load_time_nanosec: self.load_time_nanosec,
            content_hash: self.content_hash@,
            timestamp: self.timestamp,
        }
    }
}

/// The values of a sequence of scans.
pub open spec fn views(v: Seq<Scan>) -> Seq<ScanView> {
    v.map_values(|x: Scan| x@)
}

/// The value of an optional scan.
pub open spec fn opt_view(o: Option<Scan>) -> Option<ScanView> {
    match o {
        Some(x) => Some(x@),
        None => None,
    }
}

impl Scan {
    pub fn new(
        ip: String,
        port: i16,
        load_time_nanosec: i64,
        content_hash: String,
        timestamp: Timestamp,
    ) -> (r: Scan)
        ensures
            r.ip == ip,
            r.port == port,
            r.load_time_nanosec == load_time_nanosec,
            r.content_hash == content_hash,
            r.timestamp == timestamp,
    {
        Scan { ip, port, load_time_nanosec, content_hash, timestamp }
    }

    /// A copy of this record, equal to it in every field.
    pub fn duplicate(&self) -> (r: Scan)
        ensures
            r@ == self@,
    {
        Scan {
            ip: self.ip.clone(),
            port: self.port,
            load_time_nanosec: self.load_time_nanosec,
            content_hash: self.content_hash.clone(),
            timestamp: self.timestamp,
        }
    }
}

} // verus!
