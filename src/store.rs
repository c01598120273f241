use vstd::prelude::*;

use crate::listing::{
    count_under, lemma_insert_keeps, lemma_lookup_absent, lemma_lookup_at, lemma_lookup_place,
    lemma_place_at, lemma_remove_keeps, lemma_without_absent, lemma_without_at,
    lemma_without_clears, lemma_without_place, lemma_without_twice, lookup, place,
    sorted_by_time, unique_keys, upsert, without,
};
use crate::scan::{opt_view, time_le, views, Scan, ScanView};

verus! {

/// Why a change to the store was refused.
#[derive(Clone, Copy, Debug, PartialEq, Eq, Structural)]
pub enum StoreError {
    /// No record is stored under the key.
    NotFound,
    /// A record is already stored under the key.
    AlreadyExists,
}

/// An in-memory collection of scans, at most one per (ip, port), listed by timestamp.
///
/// Records with equal timestamps are listed in the order in which they were stored;
/// a record that replaces another counts as stored anew.
pub struct Store {
    records: Vec<Scan>,
}

impl View for Store {
    type V = Seq<ScanView>;

    /// The stored records, in listing order.
    closed spec fn view(&self) -> Seq<ScanView> {
        views(self.records@)
    }
}

impl Store {
    #[verifier::type_invariant]
    spec fn well_formed(&self) -> bool {
        sorted_by_time(self@) && unique_keys(self@)
    }

    /// An empty store.
    pub fn new() -> (r: Store)
        ensures
            r@ == Seq::<ScanView>::empty(),
    {
        let r = Store { records: Vec::new() };
        assert(r@ =~= Seq::<ScanView>::empty());
        r
    }

    /// The index of the record stored under (`ip`, `port`), if there is one.
    fn find(&self, ip: &String, port: i16) -> (r: Option<usize>)
        ensures
            match r {
                Some(i) => i < self@.len() && self@[i as int].has_key(ip@, port),
                None => forall|j: int| 0 <= j < self@.len() ==> !(#[trigger] self@[j]).has_key(ip@, port),
            },
    {
        let mut i: usize = 0;
        while i < self.records.len()
            invariant
                i <= self@.len(),
                self@.len() == self.records@.len(),
                forall|j: int| 0 <= j < i ==> !(#[trigger] self@[j]).has_key(ip@, port),
            decreases self.records@.len() - i,
        {
            let rec = &self.records[i];
            if rec.port == port && rec.ip == *ip {
                return Some(i);
            }
            i = i + 1;
        }
        None
    }

    /// Stores `scan` under its (ip, port), replacing whatever was stored there.
    pub fn insert_record(&mut self, scan: Scan)
        ensures
            final(self)@ == upsert(old(self)@, scan@),
    {
        proof {
            use_type_invariant(&*self);
        }
        let found = self.find(&scan.ip, scan.port);
        let ghost s0 = self@;
        let mut v: Vec<Scan> = Vec::new();
        std::mem::swap(&mut v, &mut self.records);
        assert(views(v@) == s0);
        proof {
            lemma_without_clears(s0, scan.ip@, scan.port);
        }
        match found {
            Some(i) => {
                proof {
                    lemma_without_at(s0, scan.ip@, scan.port, i as int);
                    lemma_remove_keeps(s0, i as int);
                }
                v.remove(i);
                assert(views(v@) =~= s0.remove(i as int));
            },
            None => {
                proof {
                    lemma_without_absent(s0, scan.ip@, scan.port);
                }
            },
        }
        let ghost w = views(v@);
        assert(w == without(s0, scan.ip@, scan.port));
        let mut p: usize = v.len();
        while p > 0 && !v[p - 1].timestamp.not_after(&scan.timestamp)
            invariant
                p <= v@.len(),
                forall|j: int| p <= j < v@.len() ==> !time_le(#[trigger] v@[j].timestamp, scan.timestamp),
            decreases p,
        {
            p = p - 1;
        }
        proof {
            assert forall|j: int| p <= j < w.len() implies !time_le(#[trigger] w[j].timestamp, scan.timestamp) by {
                assert(w[j] == v@[j]@);
            }
            if p > 0 {
                assert(w[p - 1] == v@[p - 1]@);
            }
            lemma_place_at(w, scan@, p as int);
            lemma_insert_keeps(w, scan@, p as int);
        }
        v.insert(p, scan);
        assert(views(v@) =~= w.insert(p as int, scan@));
        self.records = v;
    }

    /// Every stored record, as copies, ordered by timestamp.
    pub fn get_all(&self) -> (r: Vec<Scan>)
        ensures
            views(r@) == self@,
            sorted_by_time(self@),
            unique_keys(self@),
    {
        proof {
            use_type_invariant(&*self);
        }
        let mut r: Vec<Scan> = Vec::new();
        let mut i: usize = 0;
        while i < self.records.len()
            invariant
                i <= self.records@.len(),
                self@.len() == self.records@.len(),
                r@.len() == i,
                forall|k: int| 0 <= k < i ==> (#[trigger] r@[k])@ == self@[k],
            decreases self.records@.len() - i,
        {
            let c = self.records[i].duplicate();
            proof {
                assert(self@[i as int] == c@);
            }
            r.push(c);
            i = i + 1;
        }
        assert(views(r@) =~= self@);
        r
    }

    /// A copy of the record stored under (`ip`, `port`), if there is one.
    pub fn get_record(&self, ip: &str, port: i16) -> (r: Option<Scan>)
        ensures
            opt_view(r) == lookup(self@, ip@, port),
    {
        proof {
            use_type_invariant(&*self);
        }
        let key = ip.to_owned();
        match self.find(&key, port) {
            Some(i) => {
                proof {
                    lemma_lookup_at(self@, ip@, port, i as int);
                }
                Some(self.records[i].duplicate())
            },
            None => {
                proof {
                    lemma_lookup_absent(self@, ip@, port);
                }
                None
            },
        }
    }

    /// Replaces the record stored under the key of `scan`; refused where none is stored.
    pub fn update_record(&mut self, scan: Scan) -> (r: Result<(), StoreError>)
        ensures
            lookup(old(self)@, scan@.ip, scan.port) is None ==> r == Err::<(), StoreError>(
                StoreError::NotFound,
            ) && final(self)@ == old(self)@,
            lookup(old(self)@, scan@.ip, scan.port) is Some ==> r == Ok::<(), StoreError>(())
                && final(self)@ == upsert(old(self)@, scan@),
    {
        proof {
            use_type_invariant(&*self);
        }
        match self.find(&scan.ip, scan.port) {
            None => {
                proof {
                    lemma_lookup_absent(self@, scan.ip@, scan.port);
                }
                Err(StoreError::NotFound)
            },
            Some(i) => {
                proof {
                    lemma_lookup_at(self@, scan.ip@, scan.port, i as int);
                }
                self.insert_record(scan);
                Ok(())
            },
        }
    }

    /// Stores `scan` under a key that holds no record yet; refused where one is stored.
    pub fn create_record(&mut self, scan: Scan) -> (r: Result<(), StoreError>)
        ensures
            lookup(old(self)@, scan@.ip, scan.port) is Some ==> r == Err::<(), StoreError>(
                StoreError::AlreadyExists,
            ) && final(self)@ == old(self)@,
            lookup(old(self)@, scan@.ip, scan.port) is None ==> r == Ok::<(), StoreError>(())
                && final(self)@ == upsert(old(self)@, scan@),
    {
        proof {
            use_type_invariant(&*self);
        }
        match self.find(&scan.ip, scan.port) {
            Some(i) => {
                proof {
                    lemma_lookup_at(self@, scan.ip@, scan.port, i as int);
                }
                Err(StoreError::AlreadyExists)
            },
            None => {
                proof {
                    lemma_lookup_absent(self@, scan.ip@, scan.port);
                }
                self.insert_record(scan);
                Ok(())
            },
        }
    }

    /// Removes the record stored under (`ip`, `port`); refused where none is stored.
    pub fn delete_record(&mut self, ip: &str, port: i16) -> (r: Result<(), StoreError>)
        ensures
            lookup(old(self)@, ip@, port) is None ==> r == Err::<(), StoreError>(
                StoreError::NotFound,
            ) && final(self)@ == old(self)@,
            lookup(old(self)@, ip@, port) is Some ==> r == Ok::<(), StoreError>(())
                && final(self)@ == without(old(self)@, ip@, port),
    {
        proof {
            use_type_invariant(&*self);
        }
        let key = ip.to_owned();
        match self.find(&key, port) {
            None => {
                proof {
                    lemma_lookup_absent(self@, ip@, port);
                }
                Err(StoreError::NotFound)
            },
            Some(i) => {
                let ghost s0 = self@;
                proof {
                    lemma_lookup_at(s0, ip@, port, i as int);
                    lemma_without_at(s0, ip@, port, i as int);
                    lemma_remove_keeps(s0, i as int);
                }
                let mut v: Vec<Scan> = Vec::new();
                std::mem::swap(&mut v, &mut self.records);
                v.remove(i);
                assert(views(v@) =~= s0.remove(i as int));
                self.records = v;
                Ok(())
            },
        }
    }
}

/// After a record is stored, a lookup of its key finds that record.
pub proof fn lemma_insert_then_get(s: Seq<ScanView>, r: ScanView)
    ensures
        lookup(upsert(s, r), r.ip, r.port) == Some(r),
{
    lemma_without_clears(s, r.ip, r.port);
    lemma_lookup_place(without(s, r.ip, r.port), r);
}

/// Storing two records of one key leaves exactly one record under that key, the
/// second; the listing is as if the first had never been stored.
pub proof fn lemma_overwrite(s: Seq<ScanView>, r1: ScanView, r2: ScanView)
    requires
        r1.ip == r2.ip,
        r1.port == r2.port,
    ensures
        count_under(upsert(upsert(s, r1), r2), r2.ip, r2.port) == 1,
        lookup(upsert(upsert(s, r1), r2), r2.ip, r2.port) == Some(r2),
        upsert(upsert(s, r1), r2) == upsert(s, r2),
{
    let w = without(s, r1.ip, r1.port);
    lemma_without_place(w, r1);
    lemma_without_twice(s, r1.ip, r1.port);
    lemma_without_clears(s, r2.ip, r2.port);
    lemma_lookup_place(w, r2);
}

/// After the record of a key is deleted, a lookup of that key finds nothing.
pub proof fn lemma_delete_then_get(s: Seq<ScanView>, ip: Seq<char>, port: i16)
    ensures
        lookup(without(s, ip, port), ip, port) == None::<ScanView>,
{
    lemma_without_clears(s, ip, port);
}

/// A record with an earlier timestamp is listed before one with a later timestamp.
pub proof fn lemma_listing_order(s: Seq<ScanView>, i: int, j: int)
    requires
        sorted_by_time(s),
        0 <= i < s.len(),
        0 <= j < s.len(),
        !time_le(s[j].timestamp, s[i].timestamp),
    ensures
        i < j,
{
    if j < i {
        assert(time_le(s[j].timestamp, s[i].timestamp));
    }
}

/// Storing a record and then one of another key with an earlier timestamp into an
/// empty store lists the later-stored record first.
pub proof fn lemma_insert_order(r1: ScanView, r2: ScanView)
    requires
        !time_le(r1.timestamp, r2.timestamp),
        !r2.has_key(r1.ip, r1.port),
    ensures
        upsert(upsert(Seq::<ScanView>::empty(), r1), r2) == seq![r2, r1],
{
    let e = Seq::<ScanView>::empty();
    assert(upsert(e, r1) == seq![r1]);
    assert(seq![r1].drop_last() =~= e);
    assert(seq![r1].last() == r1);
    assert(without(e, r2.ip, r2.port) == e);
    assert(!seq![r1].last().has_key(r2.ip, r2.port));
    assert(without(seq![r1], r2.ip, r2.port) == e.push(r1));
    assert(e.push(r1) =~= seq![r1]);
    assert(place(seq![r1], r2) == place(e, r2).push(r1));
    assert(seq![r2].push(r1) =~= seq![r2, r1]);
}

} // verus!
