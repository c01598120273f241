use vstd::prelude::*;

use crate::scan::{time_le, ScanView};

verus! {

/// Timestamps never decrease along the listing.
pub open spec fn sorted_by_time(s: Seq<ScanView>) -> bool {
    forall|i: int, j: int|
        0 <= i < j < s.len() ==> #[trigger] time_le(s[i].timestamp, s[j].timestamp)
}

/// No two records of the listing share a key.
pub open spec fn unique_keys(s: Seq<ScanView>) -> bool {
    forall|i: int, j: int|
        0 <= i < j < s.len() ==> !(#[trigger] s[j]).has_key((#[trigger] s[i]).ip, s[i].port)
}

/// The record stored under (`ip`, `port`), if any; the last one if there were several.
pub open spec fn lookup(s: Seq<ScanView>, ip: Seq<char>, port: i16) -> Option<ScanView>
    decreases s.len(),
{
    if s.len() == 0 {
        None
    } else if s.last().has_key(ip, port) {
        Some(s.last())
    } else {
        lookup(s.drop_last(), ip, port)
    }
}

/// How many records of the listing are stored under (`ip`, `port`).
pub open spec fn count_under(s: Seq<ScanView>, ip: Seq<char>, port: i16) -> nat
    decreases s.len(),
{
    if s.len() == 0 {
        0
    } else if s.last().has_key(ip, port) {
        count_under(s.drop_last(), ip, port) + 1
    } else {
        count_under(s.drop_last(), ip, port)
    }
}

/// The listing with every record under (`ip`, `port`) taken out, the others kept in order.
pub open spec fn without(s: Seq<ScanView>, ip: Seq<char>, port: i16) -> Seq<ScanView>
    decreases s.len(),
{
    if s.len() == 0 {
        s
    } else if s.last().has_key(ip, port) {
        without(s.drop_last(), ip, port)
    } else {
        without(s.drop_last(), ip, port).push(s.last())
    }
}

/// The listing with `r` placed after every record whose timestamp is not later
/// than its own, and before the later ones.
pub open spec fn place(s: Seq<ScanView>, r: ScanView) -> Seq<ScanView>
    decreases s.len(),
{
    if s.len() == 0 {
        seq![r]
    } else if time_le(s.last().timestamp, r.timestamp) {
        s.push(r)
    } else {
        place(s.drop_last(), r).push(s.last())
    }
}

/// The listing after `r` is stored: whatever stood under its key is replaced.
pub open spec fn upsert(s: Seq<ScanView>, r: ScanView) -> Seq<ScanView> {
    place(without(s, r.ip, r.port), r)
}

/// Taking out the records of a key that holds none leaves the listing as it was.
pub proof fn lemma_without_absent(s: Seq<ScanView>, ip: Seq<char>, port: i16)
    requires
        forall|j: int| 0 <= j < s.len() ==> !(#[trigger] s[j]).has_key(ip, port),
    ensures
        without(s, ip, port) == s,
    decreases s.len(),
{
    if s.len() > 0 {
        lemma_without_absent(s.drop_last(), ip, port);
        assert(s.drop_last().push(s.last()) =~= s);
    }
}

/// Taking out the one record of a key removes it at its index.
pub proof fn lemma_without_at(s: Seq<ScanView>, ip: Seq<char>, port: i16, i: int)
    requires
        0 <= i < s.len(),
        s[i].has_key(ip, port),
        forall|j: int| 0 <= j < s.len() && j != i ==> !(#[trigger] s[j]).has_key(ip, port),
    ensures
        without(s, ip, port) == s.remove(i),
    decreases s.len(),
{
    if i == s.len() - 1 {
        lemma_without_absent(s.drop_last(), ip, port);
        assert(s.drop_last() =~= s.remove(i));
    } else {
        lemma_without_at(s.drop_last(), ip, port, i);
        assert(s.drop_last().remove(i).push(s.last()) =~= s.remove(i));
    }
}

/// A key holds nothing once its records are taken out.
pub proof fn lemma_without_clears(s: Seq<ScanView>, ip: Seq<char>, port: i16)
    ensures
        forall|j: int|
            0 <= j < without(s, ip, port).len() ==> !(#[trigger] without(s, ip, port)[j]).has_key(
                ip,
                port,
            ),
        lookup(without(s, ip, port), ip, port) == None::<ScanView>,
        count_under(without(s, ip, port), ip, port) == 0,
    decreases s.len(),
{
    if s.len() > 0 {
        lemma_without_clears(s.drop_last(), ip, port);
        let t = without(s.drop_last(), ip, port);
        if !s.last().has_key(ip, port) {
            assert(t.push(s.last()).drop_last() =~= t);
        }
    }
}

/// Inserting `r` at index `p` is placing it, where `p` follows the last record that
/// is not later than `r` and only later records follow.
pub proof fn lemma_place_at(s: Seq<ScanView>, r: ScanView, p: int)
    requires
        0 <= p <= s.len(),
        p == 0 || time_le(s[p - 1].timestamp, r.timestamp),
        forall|j: int| p <= j < s.len() ==> !time_le(#[trigger] s[j].timestamp, r.timestamp),
    ensures
        place(s, r) == s.insert(p, r),
    decreases s.len(),
{
    if s.len() == 0 {
        assert(s.insert(p, r) =~= seq![r]);
    } else if p == s.len() {
        assert(s.push(r) =~= s.insert(p, r));
    } else {
        lemma_place_at(s.drop_last(), r, p);
        assert(s.drop_last().insert(p, r).push(s.last()) =~= s.insert(p, r));
    }
}

/// The record just placed is what a lookup of its key finds, where no other
/// record held that key.
pub proof fn lemma_lookup_place(s: Seq<ScanView>, r: ScanView)
    requires
        forall|j: int| 0 <= j < s.len() ==> !(#[trigger] s[j]).has_key(r.ip, r.port),
    ensures
        lookup(place(s, r), r.ip, r.port) == Some(r),
        count_under(place(s, r), r.ip, r.port) == 1,
    decreases s.len(),
{
    if s.len() == 0 {
        assert(seq![r].drop_last() =~= s);
        assert(seq![r].last().has_key(r.ip, r.port));
        assert(count_under(s, r.ip, r.port) == 0);
    } else if time_le(s.last().timestamp, r.timestamp) {
        lemma_count_absent(s, r.ip, r.port);
        assert(s.push(r).drop_last() =~= s);
    } else {
        let t = place(s.drop_last(), r);
        assert(!s[s.len() - 1].has_key(r.ip, r.port));
        lemma_lookup_place(s.drop_last(), r);
        assert(t.push(s.last()).drop_last() =~= t);
    }
}

/// A key that no record holds counts none.
pub proof fn lemma_count_absent(s: Seq<ScanView>, ip: Seq<char>, port: i16)
    requires
        forall|j: int| 0 <= j < s.len() ==> !(#[trigger] s[j]).has_key(ip, port),
    ensures
        count_under(s, ip, port) == 0,
    decreases s.len(),
{
    if s.len() > 0 {
        lemma_count_absent(s.drop_last(), ip, port);
    }
}

/// Taking out a key's records after placing a record of that key undoes the placing.
pub proof fn lemma_without_place(s: Seq<ScanView>, r: ScanView)
    ensures
        without(place(s, r), r.ip, r.port) == without(s, r.ip, r.port),
    decreases s.len(),
{
    if s.len() == 0 {
        assert(seq![r].drop_last() =~= s);
    } else if time_le(s.last().timestamp, r.timestamp) {
        assert(s.push(r).drop_last() =~= s);
    } else {
        let t = place(s.drop_last(), r);
        lemma_without_place(s.drop_last(), r);
        assert(t.push(s.last()).drop_last() =~= t);
    }
}

/// Taking out a key's records twice is taking them out once.
pub proof fn lemma_without_twice(s: Seq<ScanView>, ip: Seq<char>, port: i16)
    ensures
        without(without(s, ip, port), ip, port) == without(s, ip, port),
{
    lemma_without_clears(s, ip, port);
    lemma_without_absent(without(s, ip, port), ip, port);
}

/// The record of a key held by exactly one record is what a lookup finds.
pub proof fn lemma_lookup_at(s: Seq<ScanView>, ip: Seq<char>, port: i16, i: int)
    requires
        0 <= i < s.len(),
        s[i].has_key(ip, port),
        forall|j: int| 0 <= j < s.len() && j != i ==> !(#[trigger] s[j]).has_key(ip, port),
    ensures
        lookup(s, ip, port) == Some(s[i]),
    decreases s.len(),
{
    if i < s.len() - 1 {
        assert(!s[s.len() - 1].has_key(ip, port));
        lemma_lookup_at(s.drop_last(), ip, port, i);
    }
}

/// A lookup of a key that no record holds finds nothing.
pub proof fn lemma_lookup_absent(s: Seq<ScanView>, ip: Seq<char>, port: i16)
    requires
        forall|j: int| 0 <= j < s.len() ==> !(#[trigger] s[j]).has_key(ip, port),
    ensures
        lookup(s, ip, port) == None::<ScanView>,
    decreases s.len(),
{
    if s.len() > 0 {
        assert(!s[s.len() - 1].has_key(ip, port));
        lemma_lookup_absent(s.drop_last(), ip, port);
    }
}

/// Removing one record keeps a listing ordered and its keys distinct.
pub proof fn lemma_remove_keeps(s: Seq<ScanView>, k: int)
    requires
        0 <= k < s.len(),
        sorted_by_time(s),
        unique_keys(s),
    ensures
        sorted_by_time(s.remove(k)),
        unique_keys(s.remove(k)),
{
    let t = s.remove(k);
    assert forall|i: int, j: int| 0 <= i < j < t.len() implies time_le(t[i].timestamp, t[j].timestamp)
        && !t[j].has_key(t[i].ip, t[i].port) by {
        let a = if i < k { i } else { i + 1 };
        let b = if j < k { j } else { j + 1 };
        assert(t[i] == s[a] && t[j] == s[b]);
        assert(time_le(s[a].timestamp, s[b].timestamp));
        assert(!s[b].has_key(s[a].ip, s[a].port));
    }
}

/// Inserting a record of a new key at its place keeps a listing ordered and its
/// keys distinct.
pub proof fn lemma_insert_keeps(s: Seq<ScanView>, r: ScanView, p: int)
    requires
        0 <= p <= s.len(),
        p == 0 || time_le(s[p - 1].timestamp, r.timestamp),
        forall|j: int| p <= j < s.len() ==> !time_le(#[trigger] s[j].timestamp, r.timestamp),
        forall|j: int| 0 <= j < s.len() ==> !(#[trigger] s[j]).has_key(r.ip, r.port),
        sorted_by_time(s),
        unique_keys(s),
    ensures
        sorted_by_time(s.insert(p, r)),
        unique_keys(s.insert(p, r)),
{
    let t = s.insert(p, r);
    assert forall|i: int, j: int| 0 <= i < j < t.len() implies time_le(t[i].timestamp, t[j].timestamp)
        && !t[j].has_key(t[i].ip, t[i].port) by {
        if j < p {
            assert(t[i] == s[i] && t[j] == s[j]);
            assert(time_le(s[i].timestamp, s[j].timestamp));
        } else if j == p {
            assert(t[i] == s[i] && t[j] == r);
            assert(time_le(s[i].timestamp, s[p - 1].timestamp) || i == p - 1);
            assert(!s[i].has_key(r.ip, r.port));
        } else if i < p {
            assert(t[i] == s[i] && t[j] == s[j - 1]);
            assert(time_le(s[i].timestamp, s[j - 1].timestamp));
        } else if i == p {
            assert(t[i] == r && t[j] == s[j - 1]);
            assert(!time_le(s[j - 1].timestamp, r.timestamp));
            assert(!s[j - 1].has_key(r.ip, r.port));
        } else {
            assert(t[i] == s[i - 1] && t[j] == s[j - 1]);
            assert(time_le(s[i - 1].timestamp, s[j - 1].timestamp));
        }
    }
}

} // verus!
