//! The storage engine, shared by every record kind: a record is `w` bytes whose
//! first eight hold its key, little-endian. A file is a run of such records.
use crate::codec::{le_i64, read_i64, TOMBSTONE};
use vstd::prelude::*;

verus! {

/// The number of whole records in `data`.
pub open spec fn record_count(data: Seq<u8>, w: nat) -> nat {
    data.len() / w
}

/// The `i`-th record of `data`.
pub open spec fn record_at(data: Seq<u8>, w: nat, i: int) -> Seq<u8> {
    data.subrange(i * w, i * w + w)
}

/// The key of the record that starts at byte `pos`.
pub open spec fn key_at_pos(data: Seq<u8>, pos: int) -> i64 {
    le_i64(data.subrange(pos, pos + 8))
}

/// The key of the `i`-th record.
pub open spec fn key_at(data: Seq<u8>, w: nat, i: int) -> i64 {
    key_at_pos(data, i * w)
}

/// The `i`-th record lies inside `data`.
pub proof fn lemma_record_in_bounds(data: Seq<u8>, w: nat, i: int)
    requires
        w > 0,
        0 <= i < record_count(data, w),
    ensures
        0 <= i * w,
        i * w + w <= data.len(),
{
    let n = record_count(data, w) as int;
    assert(0 <= i * w) by (nonlinear_arith)
        requires
            0 <= i,
            w > 0,
    ;
    assert(i * w + w <= n * w) by (nonlinear_arith)
        requires
            i + 1 <= n,
            w > 0,
    ;
    let len = data.len() as int;
    assert(n * w <= len) by (nonlinear_arith)
        requires
            n == len / (w as int),
            w > 0,
            len >= 0,
    ;
}

/// The key of a record: its first eight bytes.
pub open spec fn key_of(rec: Seq<u8>) -> i64 {
    le_i64(rec.subrange(0, 8))
}

/// The records of `data`, in file order.
pub open spec fn records(data: Seq<u8>, w: nat) -> Seq<Seq<u8>> {
    Seq::new(record_count(data, w), |i: int| record_at(data, w, i))
}

/// A record holding `k` is live: `k` is not the tombstone marker.
pub open spec fn live_key(k: i64) -> bool {
    k != TOMBSTONE
}

/// The key of the `i`-th record is the key of that record.
pub proof fn lemma_key_at_record(data: Seq<u8>, w: nat, i: int)
    requires
        w >= 8,
        0 <= i < record_count(data, w),
    ensures
        key_at(data, w, i) == key_of(record_at(data, w, i)),
        record_at(data, w, i).len() == w,
        i * w + w <= data.len(),
        0 <= i * w,
{
    lemma_record_in_bounds(data, w, i);
    assert(record_at(data, w, i).subrange(0, 8) =~= data.subrange(i * w, i * w + 8));
}

/// The `i`-th record of `data`.
pub fn record_slice(data: &[u8], w: usize, i: usize) -> (r: &[u8])
    requires
        w >= 8,
        i < record_count(data@, w as nat),
    ensures
        r@ == record_at(data@, w as nat, i as int),
        r@.len() == w,
{
    let _len = data.len();
    proof {
        lemma_key_at_record(data@, w as nat, i as int);
    }
    let pos = i * w;
    &data[pos..pos + w]
}

/// Finds the first live record whose key is `k`, by its ordinal.
pub fn find_live(data: &[u8], w: usize, k: i64) -> (r: Option<usize>)
    requires
        w >= 8,
    ensures
        r matches Some(i) ==> {
            &&& i < record_count(data@, w as nat)
            &&& live_key(k)
            &&& key_at(data@, w as nat, i as int) == k
            &&& forall|j: int| 0 <= j < i ==> key_at(data@, w as nat, j) != k
        },
        r is None ==> !live_key(k) || forall|j: int|
            0 <= j < record_count(data@, w as nat) ==> key_at(data@, w as nat, j) != k,
{
    if k == TOMBSTONE {
        return None;
    }
    let len = data.len();
    let n = len / w;
    let mut i: usize = 0;
    while i < n
        invariant
            w >= 8,
            len == data@.len(),
            k != TOMBSTONE,
            n == record_count(data@, w as nat),
            i <= n,
            forall|j: int| 0 <= j < i ==> key_at(data@, w as nat, j) != k,
        decreases n - i,
    {
        proof {
            lemma_record_in_bounds(data@, w as nat, i as int);
        }
        let key = read_i64(data, i * w);
        if key == k {
            return Some(i);
        }
        i = i + 1;
    }
    None
}

/// Where a scan of the window `[pos, end)` for key `k` stops on `k`: records
/// are read `w` bytes apart from `pos`; a live record with key `k` is the
/// answer, a live record with a greater key ends the scan, anything else is
/// passed over. The scan also ends where no whole record is left.
pub open spec fn window_find(data: Seq<u8>, w: nat, pos: int, end: int, k: i64) -> Option<int>
    decreases data.len() - pos,
{
    if w > 0 && 0 <= pos && pos < end && pos + w <= data.len() {
        let key = key_at_pos(data, pos);
        if key == k && live_key(k) {
            Some(pos)
        } else if key > k && live_key(key) {
            None
        } else {
            window_find(data, w, pos + w, end, k)
        }
    } else {
        None
    }
}

/// Scans the window `[start, end)` of `data` for a live record with key `k`,
/// and gives its byte offset.
pub fn window_scan(data: &[u8], w: usize, start: u64, end: u64, k: i64) -> (r: Option<usize>)
    requires
        w >= 8,
    ensures
        match r {
            Some(p) => window_find(data@, w as nat, start as int, end as int, k) == Some(p as int),
            None => window_find(data@, w as nat, start as int, end as int, k) is None,
        },
{
    let len = data.len();
    let mut pos: u64 = start;
    while pos < end && pos <= len as u64 && (w as u64) <= len as u64 - pos
        invariant
            w >= 8,
            len == data@.len(),
            window_find(data@, w as nat, start as int, end as int, k) == window_find(
                data@,
                w as nat,
                pos as int,
                end as int,
                k,
            ),
        decreases len - pos,
    {
        let key = read_i64(data, pos as usize);
        if key == k && k != TOMBSTONE {
            return Some(pos as usize);
        }
        if key > k && key != TOMBSTONE {
            return None;
        }
        pos = pos + w as u64;
    }
    None
}

/// Overwrites the key of the first live record with key `k` by the tombstone
/// marker. Tells whether there was such a record.
pub fn tombstone_key(data: &mut Vec<u8>, w: usize, k: i64) -> (r: bool)
    requires
        w >= 8,
    ensures
        match find_first_live(old(data)@, w as nat, k) {
            Some(i) => r && final(data)@ == kill_record(old(data)@, w as nat, i),
            None => !r && final(data)@ == old(data)@,
        },
{
    let found = find_live(data.as_slice(), w, k);
    match found {
        None => {
            proof {
                lemma_find_first_live(data@, w as nat, k);
            }
            false
        },
        Some(i) => {
            proof {
                lemma_find_first_live(data@, w as nat, k);
                lemma_record_in_bounds(data@, w as nat, i as int);
            }
            let _len = data.len();
            let pos = i * w;
            let ghost before = data@;
            let mut j: usize = 0;
            while j < 8
                invariant
                    j <= 8,
                    pos + w <= before.len(),
                    before.len() <= usize::MAX,
                    w >= 8,
                    data@.len() == before.len(),
                    forall|m: int|
                        0 <= m < before.len() ==> #[trigger] data@[m] == if pos <= m < pos + j {
                            0xFFu8
                        } else {
                            before[m]
                        },
                decreases 8 - j,
            {
                data.set(pos + j, 0xFFu8);
                j = j + 1;
            }
            proof {
                assert(data@ =~= kill_record(before, w as nat, i as int));
            }
            true
        },
    }
}

/// The first live record with key `k`, by its ordinal.
pub open spec fn find_first_live(data: Seq<u8>, w: nat, k: i64) -> Option<int> {
    if live_key(k) && exists|i: int| 0 <= i < record_count(data, w) && key_at(data, w, i) == k {
        Some(
            choose|i: int|
                0 <= i < record_count(data, w) && key_at(data, w, i) == k && forall|j: int|
                    0 <= j < i ==> key_at(data, w, j) != k,
        )
    } else {
        None
    }
}

/// `data` with the key field of its `i`-th record overwritten by eight 0xFF
/// bytes, the tombstone marker.
pub open spec fn kill_record(data: Seq<u8>, w: nat, i: int) -> Seq<u8> {
    Seq::new(data.len(), |m: int| if i * w <= m < i * w + 8 { 0xFFu8 } else { data[m] })
}

/// `find_first_live` names the record that a forward scan meets first.
pub proof fn lemma_find_first_live(data: Seq<u8>, w: nat, k: i64)
    ensures
        find_first_live(data, w, k) matches Some(i) ==> {
            &&& 0 <= i < record_count(data, w)
            &&& key_at(data, w, i) == k
            &&& live_key(k)
            &&& forall|j: int| 0 <= j < i ==> key_at(data, w, j) != k
        },
        find_first_live(data, w, k) is None ==> !live_key(k) || forall|j: int|
            0 <= j < record_count(data, w) ==> key_at(data, w, j) != k,
{
    if live_key(k) && exists|i: int| 0 <= i < record_count(data, w) && key_at(data, w, i) == k {
        let i0 = choose|i: int| 0 <= i < record_count(data, w) && key_at(data, w, i) == k;
        lemma_least_match(data, w, k, i0);
    }
}

/// Below a record with key `k` lies a first one.
proof fn lemma_least_match(data: Seq<u8>, w: nat, k: i64, i0: int)
    requires
        0 <= i0 < record_count(data, w),
        key_at(data, w, i0) == k,
    ensures
        exists|i: int|
            0 <= i < record_count(data, w) && key_at(data, w, i) == k && forall|j: int|
                0 <= j < i ==> key_at(data, w, j) != k,
    decreases i0,
{
    if exists|j: int| 0 <= j < i0 && key_at(data, w, j) == k {
        let j = choose|j: int| 0 <= j < i0 && key_at(data, w, j) == k;
        lemma_least_match(data, w, k, j);
    }
}

/// Appends one encoded record to a file image.
pub fn append_record(data: &mut Vec<u8>, rec: &[u8])
    ensures
        final(data)@ == old(data)@ + rec@,
{
    let mut i: usize = 0;
    let ghost before = data@;
    while i < rec.len()
        invariant
            i <= rec@.len(),
            data@ == before + rec@.take(i as int),
        decreases rec@.len() - i,
    {
        data.push(rec[i]);
        proof {
            assert(rec@.take(i + 1) =~= rec@.take(i as int).push(rec@[i as int]));
        }
        i = i + 1;
    }
    proof {
        assert(rec@.take(i as int) =~= rec@);
    }
}

/// Whether an overflow file of `overflow_len` bytes calls for a
/// reorganization beside a primary file of `primary_len` bytes: it does when
/// it is larger than a tenth of the primary.
pub fn needs_reorganization(primary_len: usize, overflow_len: usize) -> (r: bool)
    ensures
        r == (10 * overflow_len > primary_len),
{
    if overflow_len > usize::MAX / 10 {
        true
    } else {
        10 * overflow_len > primary_len
    }
}

/// Every record of the primary followed by every record of the overflow.
pub open spec fn all_records(primary: Seq<u8>, overflow: Seq<u8>, w: nat) -> Seq<Seq<u8>> {
    records(primary, w) + records(overflow, w)
}

/// `all[m]` is live and no later record of `all` has its key.
pub open spec fn last_live(all: Seq<Seq<u8>>, m: int) -> bool {
    &&& 0 <= m < all.len()
    &&& live_key(key_of(all[m]))
    &&& forall|m2: int| m < m2 < all.len() ==> key_of(#[trigger] all[m2]) != key_of(all[m])
}

/// `rec` is the last live record of `all` with its key.
pub open spec fn kept_from(all: Seq<Seq<u8>>, rec: Seq<u8>) -> bool {
    exists|m: int| last_live(all, m) && rec == all[m]
}

/// Keys strictly increase along the records of `data`.
pub open spec fn keys_strictly_sorted(data: Seq<u8>, w: nat) -> bool {
    forall|i: int, j: int|
        0 <= i < j < record_count(data, w) ==> key_at(data, w, i) < key_at(data, w, j)
}

/// `out` is what reorganizing the records `all` yields: one record for each
/// live key of `all`, in strictly increasing key order, each the last live
/// record of `all` with that key.
pub open spec fn reorganized(out: Seq<u8>, all: Seq<Seq<u8>>, w: nat) -> bool {
    &&& out.len() == record_count(out, w) * w
    &&& keys_strictly_sorted(out, w)
    &&& forall|i: int|
        0 <= i < record_count(out, w) ==> #[trigger] kept_from(all, record_at(out, w, i))
    &&& forall|m: int|
        #![trigger all[m]]
        0 <= m < all.len() && live_key(key_of(all[m])) ==> exists|i: int|
            0 <= i < record_count(out, w) && key_at(out, w, i) == key_of(all[m])
}

/// `a` comes before `b` or equals it, comparing keys first, then ordinals.
pub open spec fn pair_le(a: (i64, usize), b: (i64, usize)) -> bool {
    a.0 < b.0 || (a.0 == b.0 && a.1 <= b.1)
}

/// Relies on `slice::sort_unstable`: the items are rearranged into ascending
/// order, which for tuples is lexicographic.
#[verifier::external_body]
fn sort_pairs(v: &mut Vec<(i64, usize)>)
    ensures
        final(v)@.to_multiset() == old(v)@.to_multiset(),
        forall|i: int, j: int|
            0 <= i < j < final(v)@.len() ==> pair_le(final(v)@[i], final(v)@[j]),
{
    v.sort_unstable();
}

/// Appends `(key, base + i)` for each live record `i` of `data`, in order.
fn gather_live(data: &[u8], w: usize, base: usize, pairs: &mut Vec<(i64, usize)>)
    requires
        w >= 8,
        base + record_count(data@, w as nat) <= usize::MAX,
    ensures
        final(pairs)@.len() >= old(pairs)@.len(),
        forall|t: int| 0 <= t < old(pairs)@.len() ==> final(pairs)@[t] == old(pairs)@[t],
        forall|t: int|
            #![trigger final(pairs)@[t]]
            old(pairs)@.len() <= t < final(pairs)@.len() ==> {
                let p = final(pairs)@[t];
                &&& base <= p.1 < base + record_count(data@, w as nat)
                &&& p.0 == key_of(records(data@, w as nat)[p.1 - base])
                &&& live_key(p.0)
            },
        forall|i: int|
            #![trigger records(data@, w as nat)[i]]
            0 <= i < record_count(data@, w as nat) && live_key(key_of(records(data@, w as nat)[i]))
                ==> final(pairs)@.contains((key_of(records(data@, w as nat)[i]), (base + i) as usize)),
{
    let ghost recs = records(data@, w as nat);
    let ghost start = pairs@;
    let len = data.len();
    let n = len / w;
    let mut i: usize = 0;
    while i < n
        invariant
            w >= 8,
            len == data@.len(),
            n == record_count(data@, w as nat),
            recs == records(data@, w as nat),
            base + n <= usize::MAX,
            i <= n,
            pairs@.len() >= start.len(),
            forall|t: int| 0 <= t < start.len() ==> pairs@[t] == start[t],
            forall|t: int|
                #![trigger pairs@[t]]
                start.len() <= t < pairs@.len() ==> {
                    let p = pairs@[t];
                    &&& base <= p.1 < base + n
                    &&& p.0 == key_of(recs[p.1 - base])
                    &&& live_key(p.0)
                },
            forall|j: int|
                #![trigger recs[j]]
                0 <= j < i && live_key(key_of(recs[j])) ==> pairs@.contains(
                    (key_of(recs[j]), (base + j) as usize),
                ),
        decreases n - i,
    {
        proof {
            lemma_key_at_record(data@, w as nat, i as int);
        }
        let key = read_i64(data, i * w);
        let ghost before = pairs@;
        if key != TOMBSTONE {
            pairs.push((key, base + i));
            proof {
                assert(pairs@[pairs@.len() - 1] == (key, (base + i) as usize));
                assert forall|j: int|
                    #![trigger recs[j]]
                    0 <= j < i + 1 && live_key(key_of(recs[j])) implies pairs@.contains(
                        (key_of(recs[j]), (base + j) as usize),
                    ) by {
                    if j < i {
                        let t = choose|t: int|
                            0 <= t < before.len() && before[t] == (
                                key_of(recs[j]),
                                (base + j) as usize,
                            );
                        assert(pairs@[t] == before[t]);
                    } else {
                        assert(pairs@[pairs@.len() - 1] == (
                            key_of(recs[j]),
                            (base + j) as usize,
                        ));
                    }
                }
            }
        }
        i = i + 1;
    }
}

/// Appending a `w`-byte record to a run of whole records adds one record and
/// keeps the others.
pub proof fn lemma_push_record(out: Seq<u8>, rec: Seq<u8>, w: nat)
    requires
        w >= 8,
        out.len() == record_count(out, w) * w,
        rec.len() == w,
    ensures
        record_count(out + rec, w) == record_count(out, w) + 1,
        (out + rec).len() == record_count(out + rec, w) * w,
        record_at(out + rec, w, record_count(out, w) as int) == rec,
        forall|i: int|
            0 <= i < record_count(out, w) ==> #[trigger] record_at(out + rec, w, i) == record_at(
                out,
                w,
                i,
            ),
{
    let n = record_count(out, w);
    assert((n + 1) * w == n * w + w) by (nonlinear_arith);
    assert(((n * w + w) as nat) / w == n + 1) by (nonlinear_arith)
        requires
            w > 0,
    ;
    assert(record_at(out + rec, w, n as int) =~= rec);
    assert forall|i: int| 0 <= i < n implies #[trigger] record_at(out + rec, w, i) == record_at(
        out,
        w,
        i,
    ) by {
        lemma_record_in_bounds(out, w, i);
        assert(record_at(out + rec, w, i) =~= record_at(out, w, i));
    }
}

/// Reorganizes a primary and an overflow file into a new primary: live
/// records only, one per key (the last one met, the overflow coming after the
/// primary), sorted by key.
pub fn merge_live(primary: &[u8], overflow: &[u8], w: usize) -> (r: Vec<u8>)
    requires
        w >= 8,
    ensures
        reorganized(r@, all_records(primary@, overflow@, w as nat), w as nat),
{
    broadcast use vstd::seq_lib::group_to_multiset_ensures;

    let ghost wn = w as nat;
    let ghost all = all_records(primary@, overflow@, wn);
    let ghost rp = records(primary@, wn);
    let ghost ro = records(overflow@, wn);
    let np = primary.len() / w;
    let no = overflow.len() / w;
    proof {
        let (lp, lo) = (primary@.len() as int, overflow@.len() as int);
        assert(np * 8 <= lp) by (nonlinear_arith)
            requires
                np == lp / (w as int),
                w >= 8,
                lp >= 0,
        ;
        assert(no * 8 <= lo) by (nonlinear_arith)
            requires
                no == lo / (w as int),
                w >= 8,
                lo >= 0,
        ;
    }
    let mut pairs: Vec<(i64, usize)> = Vec::new();
    gather_live(primary, w, 0, &mut pairs);
    let ghost first = pairs@;
    gather_live(overflow, w, np, &mut pairs);
    let ghost gathered = pairs@;
    proof {
        assert forall|t: int|
            #![trigger gathered[t]]
            0 <= t < gathered.len() implies {
                let p = gathered[t];
                &&& 0 <= p.1 < all.len()
                &&& p.0 == key_of(all[p.1 as int])
                &&& live_key(p.0)
            } by {}
        assert forall|m: int|
            #![trigger all[m]]
            0 <= m < all.len() && live_key(key_of(all[m])) implies gathered.contains(
                (key_of(all[m]), m as usize),
            ) by {
            if m < np {
                assert(all[m] == rp[m]);
                assert(first.contains((key_of(rp[m]), (0 + m) as usize)));
                let t = choose|t: int| 0 <= t < first.len() && first[t] == (key_of(rp[m]), (0 + m) as usize);
                assert(gathered[t] == first[t]);
            } else {
                assert(all[m] == ro[m - np]);
                assert(gathered.contains((key_of(ro[m - np]), (np + (m - np)) as usize)));
            }
        }
    }
    sort_pairs(&mut pairs);
    proof {
        assert forall|t: int|
            #![trigger pairs@[t]]
            0 <= t < pairs@.len() implies {
                let p = pairs@[t];
                &&& 0 <= p.1 < all.len()
                &&& p.0 == key_of(all[p.1 as int])
                &&& live_key(p.0)
            } by {
            assert(pairs@.contains(pairs@[t]));
            assert(gathered.to_multiset().count(pairs@[t]) > 0);
        }
        assert forall|m: int|
            #![trigger all[m]]
            0 <= m < all.len() && live_key(key_of(all[m])) implies pairs@.contains(
                (key_of(all[m]), m as usize),
            ) by {
            let x = (key_of(all[m]), m as usize);
            assert(gathered.contains(x));
            assert(gathered.to_multiset().count(x) > 0);
            assert(pairs@.to_multiset().count(x) > 0);
        }
    }
    select_last(primary, overflow, w, np, &pairs)
}

/// Writes, for each run of equal keys in the sorted `pairs`, the record that
/// the run's last pair names.
fn select_last(primary: &[u8], overflow: &[u8], w: usize, np: usize, pairs: &Vec<(i64, usize)>) -> (r: Vec<u8>)
    requires
        w >= 8,
        np == record_count(primary@, w as nat),
        all_records(primary@, overflow@, w as nat).len() <= usize::MAX,
        forall|i: int, j: int| 0 <= i < j < pairs@.len() ==> pair_le(pairs@[i], pairs@[j]),
        forall|t: int|
            #![trigger pairs@[t]]
            0 <= t < pairs@.len() ==> {
                let p = pairs@[t];
                &&& 0 <= p.1 < all_records(primary@, overflow@, w as nat).len()
                &&& p.0 == key_of(all_records(primary@, overflow@, w as nat)[p.1 as int])
                &&& live_key(p.0)
            },
        forall|m: int|
            #![trigger all_records(primary@, overflow@, w as nat)[m]]
            0 <= m < all_records(primary@, overflow@, w as nat).len() && live_key(
                key_of(all_records(primary@, overflow@, w as nat)[m]),
            ) ==> pairs@.contains((key_of(all_records(primary@, overflow@, w as nat)[m]), m as usize)),
    ensures
        reorganized(r@, all_records(primary@, overflow@, w as nat), w as nat),
{
    let ghost wn = w as nat;
    let ghost all = all_records(primary@, overflow@, wn);
    let ghost rp = records(primary@, wn);
    let ghost ro = records(overflow@, wn);
    let mut out: Vec<u8> = Vec::new();
    let ghost mut okeys: Seq<i64> = seq![];
    let n = pairs.len();
    let mut t: usize = 0;
    proof {
        assert(record_count(out@, wn) == 0);
    }
    while t < n
        invariant
            w >= 8,
            wn == w as nat,
            n == pairs@.len(),
            np == record_count(primary@, wn),
            all == all_records(primary@, overflow@, wn),
            all.len() <= usize::MAX,
            rp == records(primary@, wn),
            ro == records(overflow@, wn),
            forall|i: int, j: int| 0 <= i < j < pairs@.len() ==> pair_le(pairs@[i], pairs@[j]),
            forall|t2: int|
                #![trigger pairs@[t2]]
                0 <= t2 < pairs@.len() ==> {
                    let p = pairs@[t2];
                    &&& 0 <= p.1 < all.len()
                    &&& p.0 == key_of(all[p.1 as int])
                    &&& live_key(p.0)
                },
            forall|m: int|
                #![trigger all[m]]
                0 <= m < all.len() && live_key(key_of(all[m])) ==> pairs@.contains(
                    (key_of(all[m]), m as usize),
                ),
            t <= n,
            out@.len() == record_count(out@, wn) * wn,
            okeys.len() == record_count(out@, wn),
            forall|i: int| 0 <= i < okeys.len() ==> #[trigger] key_at(out@, wn, i) == okeys[i],
            forall|i: int, j: int| 0 <= i < j < okeys.len() ==> okeys[i] < okeys[j],
            forall|i: int| 0 <= i < okeys.len() && t < n ==> okeys[i] < #[trigger] pairs@[t as int].0,
            forall|i: int|
                0 <= i < record_count(out@, wn) ==> #[trigger] kept_from(all, record_at(out@, wn, i)),
            forall|t2: int|
                #![trigger pairs@[t2]]
                0 <= t2 < t ==> okeys.contains(pairs@[t2].0) || (t < n && pairs@[t2].0
                    == pairs@[t as int].0),
        decreases n - t,
    {
        let (key, m) = pairs[t];
        if t + 1 == n || pairs[t + 1].0 != key {
            proof {
                assert(last_live(all, m as int)) by {
                    assert forall|m2: int| m < m2 < all.len() implies key_of(#[trigger] all[m2])
                        != key_of(all[m as int]) by {
                        if key_of(all[m2]) == key {
                            assert(pairs@.contains((key, m2 as usize)));
                            let t2 = choose|t2: int|
                                0 <= t2 < pairs@.len() && pairs@[t2] == (key, m2 as usize);
                            assert(pairs@[t as int] == (key, m));
                            if t2 > t + 1 {
                                assert(pair_le(pairs@[t + 1], pairs@[t2]));
                                assert(pair_le(pairs@[t as int], pairs@[t + 1]));
                            } else if t2 == t + 1 {
                                assert(pairs@[t + 1].0 == key);
                            } else if t2 < t {
                                assert(pair_le(pairs@[t2], pairs@[t as int]));
                            } else {
                                assert(m2 as usize == m);
                            }
                        }
                    }
                }
            }
            let rec = if m < np {
                proof {
                    assert(all[m as int] == rp[m as int]);
                }
                record_slice(primary, w, m)
            } else {
                proof {
                    assert(all[m as int] == ro[m - np]);
                }
                record_slice(overflow, w, m - np)
            };
            let ghost old_out = out@;
            proof {
                lemma_push_record(old_out, rec@, wn);
                lemma_key_at_record(old_out + rec@, wn, record_count(old_out, wn) as int);
                assert forall|i: int| 0 <= i < okeys.len() implies #[trigger] key_at(
                    old_out + rec@,
                    wn,
                    i,
                ) == okeys[i] by {
                    lemma_key_at_record(old_out + rec@, wn, i);
                    lemma_key_at_record(old_out, wn, i);
                    assert(record_at(old_out + rec@, wn, i) == record_at(old_out, wn, i));
                }
            }
            append_record(&mut out, rec);
            let ghost prev_keys = okeys;
            proof {
                okeys = okeys.push(key);
                assert(okeys.drop_last() =~= prev_keys);
                if t + 1 < n {
                    assert(pair_le(pairs@[t as int], pairs@[t + 1]));
                }
                assert forall|i: int|
                    0 <= i < record_count(out@, wn) implies #[trigger] kept_from(all, record_at(out@, wn, i)) by {
                    if i < record_count(old_out, wn) {
                        assert(record_at(out@, wn, i) == record_at(old_out, wn, i));
                    } else {
                        assert(record_at(out@, wn, i) == all[m as int]);
                    }
                }
                assert forall|t2: int|
                    #![trigger pairs@[t2]]
                    0 <= t2 < t + 1 implies okeys.contains(pairs@[t2].0) || (t + 1 < n
                        && pairs@[t2].0 == pairs@[t + 1].0) by {
                    if pairs@[t2].0 == key {
                        assert(okeys[okeys.len() - 1] == key);
                    } else {
                        let k2 = pairs@[t2].0;
                        let old_keys = okeys.drop_last();
                        assert(old_keys.contains(k2));
                        let i = choose|i: int| 0 <= i < old_keys.len() && old_keys[i] == k2;
                        assert(okeys[i] == k2);
                    }
                }
            }
        } else {
            proof {
                assert(pair_le(pairs@[t as int], pairs@[t + 1]));
            }
        }
        t = t + 1;
    }
    proof {
        assert forall|m: int|
            #![trigger all[m]]
            0 <= m < all.len() && live_key(key_of(all[m])) implies exists|i: int|
                0 <= i < record_count(out@, wn) && key_at(out@, wn, i) == key_of(all[m]) by {
            assert(pairs@.contains((key_of(all[m]), m as usize)));
            let t2 = choose|t2: int|
                0 <= t2 < pairs@.len() && pairs@[t2] == (key_of(all[m]), m as usize);
            assert(okeys.contains(pairs@[t2].0));
            let i = choose|i: int| 0 <= i < okeys.len() && okeys[i] == pairs@[t2].0;
            assert(key_at(out@, wn, i) == okeys[i]);
        }
    }
    out
}

/// `perm` lists each of `0..n` exactly once.
pub open spec fn is_permutation(perm: Seq<usize>, n: nat) -> bool {
    &&& perm.len() == n
    &&& forall|i: int| 0 <= i < perm.len() ==> perm[i] < n
    &&& perm.no_duplicates()
}

/// The positions of `keys` in ascending key order: a permutation `r` of the
/// positions with `keys[r[i]] <= keys[r[j]]` whenever `i < j`.
pub fn sorted_order(keys: &Vec<i64>) -> (r: Vec<usize>)
    ensures
        is_permutation(r@, keys@.len()),
        forall|i: int, j: int|
            0 <= i < j < r@.len() ==> keys@[r@[i] as int] <= keys@[r@[j] as int],
{
    broadcast use vstd::seq_lib::group_to_multiset_ensures;

    let n = keys.len();
    let mut pairs: Vec<(i64, usize)> = Vec::new();
    let mut i: usize = 0;
    while i < n
        invariant
            n == keys@.len(),
            i <= n,
            pairs@.len() == i,
            forall|t: int| 0 <= t < i ==> #[trigger] pairs@[t] == (keys@[t], t as usize),
        decreases n - i,
    {
        pairs.push((keys[i], i));
        i = i + 1;
    }
    let ghost gathered = pairs@;
    proof {
        assert(gathered.no_duplicates());
        gathered.lemma_multiset_has_no_duplicates();
    }
    sort_pairs(&mut pairs);
    proof {
        assert forall|x: (i64, usize)| pairs@.to_multiset().contains(x) implies pairs@.to_multiset().count(x) == 1 by {
            assert(gathered.to_multiset().contains(x));
        }
        pairs@.lemma_multiset_has_no_duplicates_conv();
        assert(pairs@.len() == pairs@.to_multiset().len());
        assert(gathered.len() == gathered.to_multiset().len());
    }
    let mut r: Vec<usize> = Vec::new();
    let mut t: usize = 0;
    while t < n
        invariant
            n == keys@.len(),
            n == pairs@.len(),
            t <= n,
            r@.len() == t,
            forall|u: int| 0 <= u < t ==> #[trigger] r@[u] == pairs@[u].1,
        decreases n - t,
    {
        r.push(pairs[t].1);
        t = t + 1;
    }
    proof {
        assert forall|u: int| 0 <= u < n implies #[trigger] pairs@[u] == (keys@[pairs@[u].1 as int], pairs@[u].1) && pairs@[u].1 < n by {
            assert(pairs@.contains(pairs@[u]));
            assert(gathered.to_multiset().count(pairs@[u]) > 0);
            assert(gathered.contains(pairs@[u]));
        }
        assert forall|a: int, b: int| 0 <= a < r@.len() && 0 <= b < r@.len() && a != b implies r@[a] != r@[b] by {
            assert(pairs@[a] != pairs@[b]);
        }
        assert forall|a: int, b: int| 0 <= a < b < r@.len() implies keys@[r@[a] as int] <= keys@[r@[b] as int] by {
            assert(pair_le(pairs@[a], pairs@[b]));
        }
    }
    r
}

/// Binary search over the records of `data` for key `k`. Gives the ordinal
/// of a record holding `k`; when keys strictly increase along the file, it
/// finds one whenever there is one.
pub fn binary_search_records(data: &[u8], w: usize, k: i64) -> (r: Option<usize>)
    requires
        w >= 8,
    ensures
        r matches Some(i) ==> i < record_count(data@, w as nat) && key_at(data@, w as nat, i as int) == k,
        r is None && keys_strictly_sorted(data@, w as nat) ==> forall|i: int|
            0 <= i < record_count(data@, w as nat) ==> key_at(data@, w as nat, i) != k,
{
    let len = data.len();
    let n = len / w;
    let mut lo: usize = 0;
    let mut hi: usize = n;
    while lo < hi
        invariant
            w >= 8,
            len == data@.len(),
            n == record_count(data@, w as nat),
            lo <= hi <= n,
            keys_strictly_sorted(data@, w as nat) ==> forall|i: int|
                0 <= i < lo ==> key_at(data@, w as nat, i) < k,
            keys_strictly_sorted(data@, w as nat) ==> forall|i: int|
                hi <= i < n ==> key_at(data@, w as nat, i) > k,
        decreases hi - lo,
    {
        let mid = lo + (hi - lo) / 2;
        proof {
            lemma_record_in_bounds(data@, w as nat, mid as int);
        }
        let key = read_i64(data, mid * w);
        if key < k {
            proof {
                if keys_strictly_sorted(data@, w as nat) {
                    assert forall|i: int| 0 <= i < mid + 1 implies key_at(data@, w as nat, i) < k by {
                        if i < mid {
                            assert(key_at(data@, w as nat, i) < key_at(data@, w as nat, mid as int));
                        }
                    }
                }
            }
            lo = mid + 1;
        } else if key > k {
            proof {
                if keys_strictly_sorted(data@, w as nat) {
                    assert forall|i: int| mid <= i < n implies key_at(data@, w as nat, i) > k by {
                        if i > mid {
                            assert(key_at(data@, w as nat, mid as int) < key_at(data@, w as nat, i));
                        }
                    }
                }
            }
            hi = mid;
        } else {
            return Some(mid);
        }
    }
    None
}

} // verus!
