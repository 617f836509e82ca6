//! Properties of the store that relate several operations.
use crate::codec::{le_i64, TOMBSTONE};
use crate::engine::{entry_placed, index_fits, live_sorted, primary_indexed, store_get, window_end};
use crate::indice::{sample_at, samples, IndiceEntry, IndiceParcial};
use crate::store::{
    all_records, find_first_live, key_at, key_of, keys_strictly_sorted, kept_from,
    kill_record, last_live, lemma_find_first_live, lemma_key_at_record, lemma_push_record,
    lemma_record_in_bounds, live_key, record_at, record_count, records, reorganized,
};
use vstd::prelude::*;

verus! {

/// Some record of `data` holds the key `k`.
pub open spec fn has_key(data: Seq<u8>, w: nat, k: i64) -> bool {
    exists|i: int| 0 <= i < record_count(data, w) && key_at(data, w, i) == k
}

/// Some live record among `all` holds the key `k`.
pub open spec fn has_live_key(all: Seq<Seq<u8>>, k: i64) -> bool {
    live_key(k) && exists|m: int| 0 <= m < all.len() && key_of(#[trigger] all[m]) == k
}

/// Every record of a reorganized primary file is live.
proof fn lemma_reorganized_live(out: Seq<u8>, all: Seq<Seq<u8>>, w: nat, i: int)
    requires
        w >= 8,
        reorganized(out, all, w),
        0 <= i < record_count(out, w),
    ensures
        live_key(key_at(out, w, i)),
{
    assert(kept_from(all, record_at(out, w, i)));
    let m = choose|m: int| last_live(all, m) && record_at(out, w, i) == all[m];
    lemma_key_at_record(out, w, i);
}

/// An index built over a primary file whose keys strictly increase and are
/// all live fits that file.
pub proof fn lemma_sorted_index_fits(data: Seq<u8>, w: nat, f: nat, es: Seq<IndiceEntry>)
    requires
        w >= 8,
        f > 0,
        keys_strictly_sorted(data, w),
        forall|i: int| 0 <= i < record_count(data, w) ==> live_key(#[trigger] key_at(data, w, i)),
        samples(data, w, f, es),
    ensures
        live_sorted(data, w),
        index_fits(data, w, f, es),
{
    let n = record_count(data, w);
    assert forall|a: int, b: int| 0 <= a < b < es.len() implies es[a].chave < es[b].chave by {
        assert(sample_at(data, w, f, es, a));
        assert(sample_at(data, w, f, es, b));
        assert(a * f < b * f) by (nonlinear_arith)
            requires
                a < b,
                f > 0,
        ;
        assert(b * f < n);
        assert(0 <= a * f) by (nonlinear_arith)
            requires
                0 <= a,
        ;
    }
    assert forall|j: int, r: int|
        #![trigger es[j], key_at(data, w, r)]
        0 <= j < es.len() && 0 <= r < n && live_key(key_at(data, w, r)) implies {
        &&& r < j * f ==> key_at(data, w, r) < es[j].chave
        &&& r >= j * f ==> es[j].chave <= key_at(data, w, r)
    } by {
        assert(sample_at(data, w, f, es, j));
        assert(0 <= j * f) by (nonlinear_arith)
            requires
                0 <= j,
        ;
    }
    assert forall|j: int| 0 <= j < es.len() implies #[trigger] entry_placed(data, w, f, es, j) by {
        assert(0 <= j * f) by (nonlinear_arith)
            requires
                0 <= j,
        ;
        assert(sample_at(data, w, f, es, j));
    }
}

/// Within an index that fits a file of whole records, every window spans at
/// most `f` records.
pub proof fn lemma_window_within_factor(data: Seq<u8>, w: nat, f: nat, es: Seq<IndiceEntry>, i: int)
    requires
        w >= 8,
        index_fits(data, w, f, es),
        data.len() == record_count(data, w) * w,
        0 <= i < es.len(),
    ensures
        es[i].posicao <= window_end(es, i, data.len()),
        window_end(es, i, data.len()) - es[i].posicao <= f * w,
{
    let n = record_count(data, w) as int;
    assert(entry_placed(data, w, f, es, i));
    if i + 1 < es.len() {
        assert(entry_placed(data, w, f, es, i + 1));
        assert((i + 1) * f * w == i * f * w + f * w) by (nonlinear_arith);
        assert(0 <= f * w) by (nonlinear_arith)
            requires
                f > 0,
                w > 0,
        ;
    } else {
        assert(es.len() == i + 1);
        assert(n <= (i + 1) * f);
        assert(n * w <= (i + 1) * f * w) by (nonlinear_arith)
            requires
                n <= (i + 1) * f,
                w > 0,
        ;
        assert((i + 1) * f * w == i * f * w + f * w) by (nonlinear_arith);
        assert(i * f < n);
        assert(i * f * w <= n * w) by (nonlinear_arith)
            requires
                i * f < n,
                w > 0,
        ;
    }
}

/// After a reorganization the overflow file is empty, the primary file holds
/// whole records, exactly one for each key that was live before, in strictly
/// increasing key order, and the rebuilt index fits it with windows of at
/// most `f` records, so that a lookup through it finds every live key.
pub proof fn lemma_reorganize_result(
    primary: Seq<u8>,
    overflow: Seq<u8>,
    new_primary: Seq<u8>,
    w: nat,
    idx: IndiceParcial,
)
    requires
        w >= 8,
        idx.fator_esparsidade > 0,
        reorganized(new_primary, all_records(primary, overflow, w), w),
        samples(new_primary, w, idx.fator_esparsidade as nat, idx.entradas@),
    ensures
        new_primary.len() == record_count(new_primary, w) * w,
        keys_strictly_sorted(new_primary, w),
        forall|i: int|
            0 <= i < record_count(new_primary, w) ==> live_key(#[trigger] key_at(new_primary, w, i)),
        forall|k: i64|
            #[trigger] has_key(new_primary, w, k) <==> has_live_key(
                all_records(primary, overflow, w),
                k,
            ),
        primary_indexed(new_primary, w, idx),
        forall|i: int|
            0 <= i < idx.entradas@.len() ==> window_end(idx.entradas@, i, new_primary.len())
                - (#[trigger] idx.entradas@[i]).posicao <= idx.fator_esparsidade * w,
{
    let all = all_records(primary, overflow, w);
    let f = idx.fator_esparsidade as nat;
    let es = idx.entradas@;
    assert forall|i: int| 0 <= i < record_count(new_primary, w) implies live_key(
        #[trigger] key_at(new_primary, w, i),
    ) by {
        lemma_reorganized_live(new_primary, all, w, i);
    }
    lemma_sorted_index_fits(new_primary, w, f, es);
    assert forall|i: int| 0 <= i < es.len() implies window_end(es, i, new_primary.len())
        - (#[trigger] es[i]).posicao <= f * w by {
        lemma_window_within_factor(new_primary, w, f, es, i);
    }
    assert forall|k: i64| #[trigger] has_key(new_primary, w, k) <==> has_live_key(all, k) by {
        if has_key(new_primary, w, k) {
            let i = choose|i: int|
                0 <= i < record_count(new_primary, w) && key_at(new_primary, w, i) == k;
            assert(kept_from(all, record_at(new_primary, w, i)));
            let m = choose|m: int| last_live(all, m) && record_at(new_primary, w, i) == all[m];
            lemma_key_at_record(new_primary, w, i);
        }
    }
}

/// Two strictly increasing sequences with the same elements are equal.
proof fn lemma_sorted_same_elements(a: Seq<i64>, b: Seq<i64>)
    requires
        forall|i: int, j: int| 0 <= i < j < a.len() ==> a[i] < a[j],
        forall|i: int, j: int| 0 <= i < j < b.len() ==> b[i] < b[j],
        forall|x: i64| a.contains(x) <==> b.contains(x),
    ensures
        a == b,
    decreases a.len(),
{
    if a.len() == 0 {
        if b.len() > 0 {
            assert(b.contains(b[0]));
        }
        assert(a =~= b);
    } else {
        assert(a.contains(a[0]));
        assert(b.len() > 0);
        assert(b.contains(b[0]));
        let ib = choose|k: int| 0 <= k < b.len() && b[k] == a[0];
        let ia = choose|k: int| 0 <= k < a.len() && a[k] == b[0];
        assert(a[0] == b[0]) by {
            if ia > 0 {
                assert(a[0] < a[ia]);
            }
            if ib > 0 {
                assert(b[0] < b[ib]);
            }
        }
        let (a_rest, b_rest) = (a.drop_first(), b.drop_first());
        assert forall|x: i64| a_rest.contains(x) <==> b_rest.contains(x) by {
            if a_rest.contains(x) {
                let k = choose|k: int| 0 <= k < a_rest.len() && a_rest[k] == x;
                assert(a[k + 1] == x);
                assert(a[0] < a[k + 1]);
                assert(a.contains(x));
                let kb = choose|kb: int| 0 <= kb < b.len() && b[kb] == x;
                assert(kb > 0);
                assert(b_rest[kb - 1] == x);
            }
            if b_rest.contains(x) {
                let k = choose|k: int| 0 <= k < b_rest.len() && b_rest[k] == x;
                assert(b[k + 1] == x);
                assert(b[0] < b[k + 1]);
                assert(b.contains(x));
                let ka = choose|ka: int| 0 <= ka < a.len() && a[ka] == x;
                assert(ka > 0);
                assert(a_rest[ka - 1] == x);
            }
        }
        lemma_sorted_same_elements(a_rest, b_rest);
        assert(a =~= b) by {
            assert forall|k: int| 0 <= k < a.len() implies a[k] == b[k] by {
                if k > 0 {
                    assert(a[k] == a_rest[k - 1]);
                    assert(b[k] == b_rest[k - 1]);
                }
            }
        }
    }
}

/// The keys of the records of `data`.
pub open spec fn keys(data: Seq<u8>, w: nat) -> Seq<i64> {
    Seq::new(record_count(data, w), |i: int| key_at(data, w, i))
}

/// Two runs of whole records that agree record by record are equal.
proof fn lemma_same_records(left: Seq<u8>, right: Seq<u8>, w: nat)
    requires
        w >= 8,
        left.len() == record_count(left, w) * w,
        right.len() == left.len(),
        forall|i: int|
            0 <= i < record_count(left, w) ==> #[trigger] record_at(left, w, i) == record_at(right, w, i),
    ensures
        left == right,
{
    let n = record_count(left, w) as int;
    assert forall|b: int| 0 <= b < left.len() implies left[b] == right[b] by {
        let i = b / (w as int);
        let o = b % (w as int);
        vstd::arithmetic::div_mod::lemma_fundamental_div_mod(b, w as int);
        assert(0 <= o < w) by {
            vstd::arithmetic::div_mod::lemma_mod_bound(b, w as int);
        }
        assert(0 <= i < n) by (nonlinear_arith)
            requires
                b == (w as int) * i + o,
                0 <= o < w,
                0 <= b < n * w,
                w > 0,
        ;
        assert(i * w + o == b) by (nonlinear_arith)
            requires
                b == (w as int) * i + o,
        ;
        lemma_record_in_bounds(left, w, i);
        assert(record_at(left, w, i)[o] == left[b]);
        assert(record_at(right, w, i)[o] == right[b]);
    }
    assert(left =~= right);
}

/// The entries that sample a file are determined by the file.
proof fn lemma_samples_unique(data: Seq<u8>, w: nat, f: nat, first: Seq<IndiceEntry>, second: Seq<
    IndiceEntry,
>)
    requires
        f > 0,
        samples(data, w, f, first),
        samples(data, w, f, second),
    ensures
        first == second,
{
    let n = record_count(data, w) as int;
    if first.len() < second.len() {
        let j = first.len() as int;
        assert(sample_at(data, w, f, second, j));
        assert(j * f >= n);
    } else if second.len() < first.len() {
        let j = second.len() as int;
        assert(sample_at(data, w, f, first, j));
        assert(j * f >= n);
    }
    assert forall|j: int| 0 <= j < first.len() implies first[j] == second[j] by {
        assert(sample_at(data, w, f, first, j));
        assert(sample_at(data, w, f, second, j));
    }
    assert(first =~= second);
}

/// Reorganizing twice with no change in between gives the same primary file
/// and the same index as the first reorganization.
pub proof fn lemma_reorganize_idempotent(
    primary: Seq<u8>,
    overflow: Seq<u8>,
    once: Seq<u8>,
    twice: Seq<u8>,
    w: nat,
    f: nat,
    idx_once: Seq<IndiceEntry>,
    idx_twice: Seq<IndiceEntry>,
)
    requires
        w >= 8,
        f > 0,
        reorganized(once, all_records(primary, overflow, w), w),
        samples(once, w, f, idx_once),
        reorganized(twice, all_records(once, Seq::<u8>::empty(), w), w),
        samples(twice, w, f, idx_twice),
    ensures
        twice == once,
        idx_twice == idx_once,
{
    let all_first = all_records(primary, overflow, w);
    let a = all_records(once, Seq::<u8>::empty(), w);
    assert(records(Seq::<u8>::empty(), w).len() == 0);
    assert(a =~= records(once, w));
    let (keys_once, keys_twice) = (keys(once, w), keys(twice, w));
    assert forall|x: i64| keys_once.contains(x) <==> keys_twice.contains(x) by {
        if keys_once.contains(x) {
            let m = choose|m: int| 0 <= m < keys_once.len() && keys_once[m] == x;
            lemma_reorganized_live(once, all_first, w, m);
            lemma_key_at_record(once, w, m);
            assert(a[m] == record_at(once, w, m));
            assert(live_key(key_of(a[m])));
            let i = choose|i: int| 0 <= i < record_count(twice, w) && key_at(twice, w, i) == key_of(a[m]);
            assert(keys_twice[i] == x);
        }
        if keys_twice.contains(x) {
            let i = choose|i: int| 0 <= i < keys_twice.len() && keys_twice[i] == x;
            assert(kept_from(a, record_at(twice, w, i)));
            let m = choose|m: int| last_live(a, m) && record_at(twice, w, i) == a[m];
            lemma_key_at_record(twice, w, i);
            lemma_key_at_record(once, w, m);
            assert(keys_once[m] == x);
        }
    }
    lemma_sorted_same_elements(keys_once, keys_twice);
    assert forall|i: int| 0 <= i < record_count(once, w) implies #[trigger] record_at(once, w, i)
        == record_at(twice, w, i) by {
        assert(keys_once[i] == keys_twice[i]);
        assert(kept_from(a, record_at(twice, w, i)));
        let m = choose|m: int| last_live(a, m) && record_at(twice, w, i) == a[m];
        lemma_key_at_record(twice, w, i);
        lemma_key_at_record(once, w, m);
        assert(keys_once[m] == keys_once[i]);
        if m < i {
            assert(keys_once[m] < keys_once[i]);
        } else if m > i {
            assert(keys_once[i] < keys_once[m]);
        }
    }
    assert(record_count(once, w) == record_count(twice, w)) by {
        assert(keys_once.len() == keys_twice.len());
    }
    lemma_same_records(once, twice, w);
    lemma_samples_unique(once, w, f, idx_once, idx_twice);
}

/// A file of whole records: its size is a multiple of the record width.
pub open spec fn whole(data: Seq<u8>, w: nat) -> bool {
    (data.len() as int) % (w as int) == 0
}

/// A whole file is exactly its records.
pub proof fn lemma_whole(data: Seq<u8>, w: nat)
    requires
        w > 0,
    ensures
        whole(data, w) <==> data.len() == record_count(data, w) * w,
{
    let (l, wi) = (data.len() as int, w as int);
    vstd::arithmetic::div_mod::lemma_fundamental_div_mod(l, wi);
    assert(record_count(data, w) == l / wi);
    if whole(data, w) {
        assert(l == (l / wi) * wi) by (nonlinear_arith)
            requires
                l == wi * (l / wi) + l % wi,
                l % wi == 0,
        ;
    }
    if data.len() == record_count(data, w) * w {
        vstd::arithmetic::div_mod::lemma_mod_multiples_basic(l / wi, wi);
    }
}

/// No live key appears twice across the primary and overflow files.
pub open spec fn unique_live(primary: Seq<u8>, overflow: Seq<u8>, w: nat) -> bool {
    forall|a: int, b: int|
        0 <= a < b < all_records(primary, overflow, w).len() && live_key(
            key_of(#[trigger] all_records(primary, overflow, w)[a]),
        ) ==> key_of(all_records(primary, overflow, w)[a]) != key_of(
            #[trigger] all_records(primary, overflow, w)[b],
        )
}

/// The store is consistent: both files hold whole records, the primary file
/// is sorted by its live keys, the index fits it, and no live key appears
/// twice.
pub open spec fn store_wf(primary: Seq<u8>, overflow: Seq<u8>, w: nat, idx: IndiceParcial) -> bool {
    &&& whole(primary, w)
    &&& whole(overflow, w)
    &&& primary_indexed(primary, w, idx)
    &&& unique_live(primary, overflow, w)
}

/// The records of a file with one more record appended.
proof fn lemma_records_push(data: Seq<u8>, rec: Seq<u8>, w: nat)
    requires
        w >= 8,
        data.len() == record_count(data, w) * w,
        rec.len() == w,
    ensures
        records(data + rec, w) == records(data, w).push(rec),
{
    lemma_push_record(data, rec, w);
    assert(records(data + rec, w) =~= records(data, w).push(rec));
}

/// The key field of a tombstone, eight 0xFF bytes, reads as the tombstone
/// marker.
pub proof fn lemma_tombstone_bytes()
    ensures
        le_i64(Seq::new(8, |i: int| 0xFFu8)) == TOMBSTONE,
{
    let x: u64 = 0xFFFF_FFFF_FFFF_FFFFu64;
    vstd::bytes::lemma_auto_spec_u64_to_from_le_bytes();
    vstd::bytes::spec_u64_to_le_bytes_to_open(x);
    assert({
        &&& (x & 0xff) as u8 == 0xFFu8
        &&& ((x >> 8) & 0xff) as u8 == 0xFFu8
        &&& ((x >> 16) & 0xff) as u8 == 0xFFu8
        &&& ((x >> 24) & 0xff) as u8 == 0xFFu8
        &&& ((x >> 32) & 0xff) as u8 == 0xFFu8
        &&& ((x >> 40) & 0xff) as u8 == 0xFFu8
        &&& ((x >> 48) & 0xff) as u8 == 0xFFu8
        &&& ((x >> 56) & 0xff) as u8 == 0xFFu8
        &&& (x as i64) == -1i64
    }) by (bit_vector)
        requires
            x == 0xFFFF_FFFF_FFFF_FFFFu64,
    ;
    assert(vstd::bytes::spec_u64_to_le_bytes(x) =~= Seq::new(8, |i: int| 0xFFu8));
}

/// Tombstoning record `i` turns its key into the marker and leaves every
/// other record as it was.
pub proof fn lemma_kill_record(data: Seq<u8>, w: nat, i: int)
    requires
        w >= 8,
        0 <= i < record_count(data, w),
    ensures
        kill_record(data, w, i).len() == data.len(),
        record_count(kill_record(data, w, i), w) == record_count(data, w),
        key_at(kill_record(data, w, i), w, i) == TOMBSTONE,
        forall|j: int|
            0 <= j < record_count(data, w) && j != i ==> #[trigger] record_at(
                kill_record(data, w, i),
                w,
                j,
            ) == record_at(data, w, j),
        forall|j: int|
            0 <= j < record_count(data, w) && j != i ==> #[trigger] key_at(
                kill_record(data, w, i),
                w,
                j,
            ) == key_at(data, w, j),
{
    let d2 = kill_record(data, w, i);
    lemma_record_in_bounds(data, w, i);
    assert(d2.subrange(i * w, i * w + 8) =~= Seq::new(8, |x: int| 0xFFu8));
    lemma_tombstone_bytes();
    assert forall|j: int| 0 <= j < record_count(data, w) && j != i implies #[trigger] record_at(
        d2,
        w,
        j,
    ) == record_at(data, w, j) by {
        lemma_record_in_bounds(data, w, j);
        if j < i {
            assert(j * w + w <= i * w) by (nonlinear_arith)
                requires
                    j + 1 <= i,
                    w > 0,
            ;
        } else {
            assert(i * w + w <= j * w) by (nonlinear_arith)
                requires
                    i + 1 <= j,
                    w > 0,
            ;
        }
        assert(record_at(d2, w, j) =~= record_at(data, w, j));
    }
    assert forall|j: int| 0 <= j < record_count(data, w) && j != i implies #[trigger] key_at(
        d2,
        w,
        j,
    ) == key_at(data, w, j) by {
        lemma_key_at_record(data, w, j);
        lemma_key_at_record(d2, w, j);
        assert(record_at(d2, w, j) == record_at(data, w, j));
    }
}

/// Two files whose records hold `k` at the same places have the same first
/// live record with key `k`.
proof fn lemma_same_first(left: Seq<u8>, right: Seq<u8>, w: nat, k: i64)
    requires
        record_count(left, w) == record_count(right, w),
        forall|j: int|
            0 <= j < record_count(left, w) ==> (key_at(left, w, j) == k <==> key_at(right, w, j) == k),
    ensures
        find_first_live(left, w, k) == find_first_live(right, w, k),
{
    lemma_find_first_live(left, w, k);
    lemma_find_first_live(right, w, k);
    if let Some(i) = find_first_live(left, w, k) {
        crate::engine::lemma_first_match(right, w, k, i);
    } else if let Some(i) = find_first_live(right, w, k) {
        crate::engine::lemma_first_match(left, w, k, i);
    }
}

/// The `m`-th of all records, read from the file that holds it.
proof fn lemma_all_records_at(primary: Seq<u8>, overflow: Seq<u8>, w: nat, m: int)
    requires
        w >= 8,
        0 <= m < all_records(primary, overflow, w).len(),
    ensures
        m < record_count(primary, w) ==> all_records(primary, overflow, w)[m] == record_at(
            primary,
            w,
            m,
        ) && key_of(all_records(primary, overflow, w)[m]) == key_at(primary, w, m),
        m >= record_count(primary, w) ==> all_records(primary, overflow, w)[m] == record_at(
            overflow,
            w,
            m - record_count(primary, w),
        ) && key_of(all_records(primary, overflow, w)[m]) == key_at(
            overflow,
            w,
            m - record_count(primary, w),
        ),
{
    let np = record_count(primary, w) as int;
    if m < np {
        lemma_key_at_record(primary, w, m);
    } else {
        lemma_key_at_record(overflow, w, m - np);
    }
}

/// Appending a record whose key is live and absent keeps the store
/// consistent; the record becomes what a lookup of its key owes, and every
/// other key keeps its record.
pub proof fn lemma_append_keeps_store(
    primary: Seq<u8>,
    overflow: Seq<u8>,
    rec: Seq<u8>,
    w: nat,
    idx: IndiceParcial,
)
    requires
        store_wf(primary, overflow, w, idx),
        rec.len() == w,
        live_key(key_of(rec)),
        store_get(primary, overflow, w, key_of(rec)) is None,
    ensures
        store_wf(primary, overflow + rec, w, idx),
        forall|k: i64|
            #[trigger] store_get(primary, overflow + rec, w, k) == if k == key_of(rec) {
                Some(rec)
            } else {
                store_get(primary, overflow, w, k)
            },
{
    let k = key_of(rec);
    let o2 = overflow + rec;
    let no = record_count(overflow, w) as int;
    let np = record_count(primary, w) as int;
    lemma_whole(overflow, w);
    lemma_push_record(overflow, rec, w);
    lemma_whole(o2, w);
    lemma_records_push(overflow, rec, w);
    lemma_find_first_live(primary, w, k);
    lemma_find_first_live(overflow, w, k);
    let all = all_records(primary, overflow, w);
    let all2 = all_records(primary, o2, w);
    assert(all2 =~= all.push(rec));
    assert forall|a: int, b: int|
        0 <= a < b < all2.len() && live_key(key_of(#[trigger] all2[a])) implies key_of(all2[a])
        != key_of(#[trigger] all2[b]) by {
        if b == all.len() {
            lemma_all_records_at(primary, overflow, w, a);
            assert(all2[a] == all[a]);
        } else {
            assert(all2[a] == all[a]);
            assert(all2[b] == all[b]);
        }
    }
    assert forall|j: int| 0 <= j < no implies #[trigger] key_at(o2, w, j) == key_at(overflow, w, j)
        && record_at(o2, w, j) == record_at(overflow, w, j) by {
        lemma_key_at_record(o2, w, j);
        lemma_key_at_record(overflow, w, j);
    }
    lemma_key_at_record(o2, w, no);
    assert forall|k2: i64| #[trigger] store_get(primary, o2, w, k2) == if k2 == k {
        Some(rec)
    } else {
        store_get(primary, overflow, w, k2)
    } by {
        lemma_find_first_live(overflow, w, k2);
        lemma_find_first_live(o2, w, k2);
        if k2 == k {
            crate::engine::lemma_first_match(o2, w, k, no);
        } else {
            match find_first_live(overflow, w, k2) {
                Some(i) => {
                    crate::engine::lemma_first_match(o2, w, k2, i);
                },
                None => {
                    if let Some(i) = find_first_live(o2, w, k2) {
                        if i < no {
                            assert(key_at(overflow, w, i) == k2);
                        }
                    }
                },
            }
        }
    }
}

/// Deleting a key keeps the store consistent: a lookup of the key then owes
/// nothing, and every other key keeps its record.
pub proof fn lemma_delete_keeps_store(
    primary: Seq<u8>,
    overflow: Seq<u8>,
    w: nat,
    idx: IndiceParcial,
    k: i64,
    primary2: Seq<u8>,
    overflow2: Seq<u8>,
)
    requires
        store_wf(primary, overflow, w, idx),
        match find_first_live(primary, w, k) {
            Some(i) => primary2 == kill_record(primary, w, i) && overflow2 == overflow,
            None => match find_first_live(overflow, w, k) {
                Some(i) => overflow2 == kill_record(overflow, w, i) && primary2 == primary,
                None => primary2 == primary && overflow2 == overflow,
            },
        },
    ensures
        store_wf(primary2, overflow2, w, idx),
        store_get(primary2, overflow2, w, k) is None,
        forall|k2: i64|
            k2 != k ==> #[trigger] store_get(primary2, overflow2, w, k2) == store_get(
                primary,
                overflow,
                w,
                k2,
            ),
{
    let np = record_count(primary, w) as int;
    let all = all_records(primary, overflow, w);
    let all2 = all_records(primary2, overflow2, w);
    lemma_find_first_live(primary, w, k);
    lemma_find_first_live(overflow, w, k);
    match find_first_live(primary, w, k) {
        Some(i) => {
            lemma_kill_record(primary, w, i);
            lemma_kill_alive(primary, overflow, w, idx, k, i, true, primary2, overflow2);
        },
        None => match find_first_live(overflow, w, k) {
            Some(i) => {
                lemma_kill_record(overflow, w, i);
                lemma_kill_alive(primary, overflow, w, idx, k, i, false, primary2, overflow2);
            },
            None => {},
        },
    }
}

/// Tombstoning the live record `i` with key `k`, in the primary file or in
/// the overflow file.
proof fn lemma_kill_alive(
    primary: Seq<u8>,
    overflow: Seq<u8>,
    w: nat,
    idx: IndiceParcial,
    k: i64,
    i: int,
    in_primary: bool,
    p2: Seq<u8>,
    o2: Seq<u8>,
)
    requires
        p2 == if in_primary { kill_record(primary, w, i) } else { primary },
        o2 == if in_primary { overflow } else { kill_record(overflow, w, i) },
        store_wf(primary, overflow, w, idx),
        live_key(k),
        in_primary ==> 0 <= i < record_count(primary, w) && key_at(primary, w, i) == k,
        !in_primary ==> 0 <= i < record_count(overflow, w) && key_at(overflow, w, i) == k,
        !in_primary ==> find_first_live(primary, w, k) is None,
    ensures
        store_wf(p2, o2, w, idx),
        store_get(p2, o2, w, k) is None,
        forall|k2: i64|
            k2 != k ==> #[trigger] store_get(p2, o2, w, k2) == store_get(primary, overflow, w, k2),
{
    let np = record_count(primary, w) as int;
    let no = record_count(overflow, w) as int;
    let all = all_records(primary, overflow, w);
    let all2 = all_records(p2, o2, w);
    let gi = if in_primary { i } else { np + i };
    if in_primary {
        lemma_kill_record(primary, w, i);
    } else {
        lemma_kill_record(overflow, w, i);
    }
    assert(record_count(p2, w) == np && record_count(o2, w) == no);
    assert(all2.len() == all.len());
    // The records keep their keys but for the one deleted, which turns dead.
    assert forall|m: int| 0 <= m < all.len() implies (m != gi ==> key_of(#[trigger] all2[m])
        == key_of(all[m]) && all2[m] == all[m]) && (m == gi ==> !live_key(key_of(all2[m]))
        && key_of(all[m]) == k) by {
        lemma_all_records_at(primary, overflow, w, m);
        lemma_all_records_at(p2, o2, w, m);
    }
    assert(whole(p2, w) && whole(o2, w));
    assert(live_sorted(p2, w)) by {
        assert forall|a: int, b: int|
            0 <= a < b < record_count(p2, w) && live_key(key_at(p2, w, a)) && live_key(
                key_at(p2, w, b),
            ) implies key_at(p2, w, a) < key_at(p2, w, b) by {
            lemma_all_records_at(p2, o2, w, a);
            lemma_all_records_at(p2, o2, w, b);
            lemma_all_records_at(primary, overflow, w, a);
            lemma_all_records_at(primary, overflow, w, b);
        }
    }
    assert(index_fits(p2, w, idx.fator_esparsidade as nat, idx.entradas@)) by {
        let f = idx.fator_esparsidade as nat;
        let es = idx.entradas@;
        assert forall|j: int| 0 <= j < es.len() implies #[trigger] entry_placed(p2, w, f, es, j) by {
            assert(entry_placed(primary, w, f, es, j));
        }
        assert forall|j: int, r: int|
            #![trigger es[j], key_at(p2, w, r)]
            0 <= j < es.len() && 0 <= r < record_count(p2, w) && live_key(key_at(p2, w, r)) implies {
            &&& r < j * f ==> key_at(p2, w, r) < es[j].chave
            &&& r >= j * f ==> es[j].chave <= key_at(p2, w, r)
        } by {
            lemma_all_records_at(p2, o2, w, r);
            lemma_all_records_at(primary, overflow, w, r);
            assert(key_at(p2, w, r) == key_at(primary, w, r));
        }
    }
    assert(unique_live(p2, o2, w)) by {
        assert forall|a: int, b: int|
            0 <= a < b < all2.len() && live_key(key_of(#[trigger] all2[a])) implies key_of(all2[a])
            != key_of(#[trigger] all2[b]) by {
            assert(key_of(all[a]) != key_of(all[b]));
        }
    }
    // A lookup of `k` finds nothing now.
    lemma_all_records_at(primary, overflow, w, gi);
    assert(key_of(all[gi]) == k);
    assert forall|m: int| 0 <= m < all2.len() implies key_of(#[trigger] all2[m]) != k by {
        if m != gi {
            if m < gi {
                if live_key(key_of(all[m])) {
                    assert(key_of(all[m]) != key_of(all[gi]));
                }
            } else {
                assert(key_of(all[gi]) != key_of(all[m]));
            }
        }
    }
    lemma_find_first_live(p2, w, k);
    lemma_find_first_live(o2, w, k);
    if let Some(j) = find_first_live(p2, w, k) {
        lemma_all_records_at(p2, o2, w, j);
        assert(key_of(all2[j]) == k);
    }
    if let Some(j) = find_first_live(o2, w, k) {
        lemma_all_records_at(p2, o2, w, np + j);
        assert(key_of(all2[np + j]) == k);
    }
    // Other keys keep their records.
    assert forall|k2: i64| k2 != k implies #[trigger] store_get(p2, o2, w, k2) == store_get(
        primary,
        overflow,
        w,
        k2,
    ) by {
        if live_key(k2) {
            assert forall|j: int| 0 <= j < np implies (key_at(primary, w, j) == k2 <==> key_at(
                p2,
                w,
                j,
            ) == k2) by {
                lemma_all_records_at(p2, o2, w, j);
                lemma_all_records_at(primary, overflow, w, j);
            }
            assert forall|j: int| 0 <= j < no implies (key_at(overflow, w, j) == k2 <==> key_at(
                o2,
                w,
                j,
            ) == k2) by {
                lemma_all_records_at(p2, o2, w, np + j);
                lemma_all_records_at(primary, overflow, w, np + j);
            }
            lemma_same_first(primary, p2, w, k2);
            lemma_same_first(overflow, o2, w, k2);
            lemma_find_first_live(primary, w, k2);
            lemma_find_first_live(overflow, w, k2);
            if let Some(j) = find_first_live(primary, w, k2) {
                lemma_all_records_at(p2, o2, w, j);
                lemma_all_records_at(primary, overflow, w, j);
            } else if let Some(j) = find_first_live(overflow, w, k2) {
                lemma_all_records_at(p2, o2, w, np + j);
                lemma_all_records_at(primary, overflow, w, np + j);
            }
        }
    }
}

/// Two live records among all records that hold the same key are one record.
proof fn lemma_unique_index(primary: Seq<u8>, overflow: Seq<u8>, w: nat, a: int, b: int)
    requires
        unique_live(primary, overflow, w),
        0 <= a < all_records(primary, overflow, w).len(),
        0 <= b < all_records(primary, overflow, w).len(),
        live_key(key_of(all_records(primary, overflow, w)[a])),
        key_of(all_records(primary, overflow, w)[a]) == key_of(all_records(primary, overflow, w)[b]),
    ensures
        a == b,
{
    let all = all_records(primary, overflow, w);
    if a < b {
        assert(key_of(all[a]) != key_of(all[b]));
    } else if b < a {
        assert(key_of(all[b]) != key_of(all[a]));
    }
}

/// What a lookup of `k` owes is the live record with key `k` among all
/// records, when there is one, and nothing otherwise.
proof fn lemma_store_get_all(primary: Seq<u8>, overflow: Seq<u8>, w: nat, k: i64)
    requires
        w >= 8,
        unique_live(primary, overflow, w),
    ensures
        forall|m: int|
            0 <= m < all_records(primary, overflow, w).len() && live_key(k) && key_of(
                #[trigger] all_records(primary, overflow, w)[m],
            ) == k ==> store_get(primary, overflow, w, k) == Some(
                all_records(primary, overflow, w)[m],
            ),
        store_get(primary, overflow, w, k) is Some ==> has_live_key(
            all_records(primary, overflow, w),
            k,
        ),
{
    let all = all_records(primary, overflow, w);
    let np = record_count(primary, w) as int;
    lemma_find_first_live(primary, w, k);
    lemma_find_first_live(overflow, w, k);
    assert forall|m: int|
        0 <= m < all.len() && live_key(k) && key_of(#[trigger] all[m]) == k implies store_get(
        primary,
        overflow,
        w,
        k,
    ) == Some(all[m]) by {
        lemma_all_records_at(primary, overflow, w, m);
        match find_first_live(primary, w, k) {
            Some(i) => {
                lemma_all_records_at(primary, overflow, w, i);
                lemma_unique_index(primary, overflow, w, i, m);
            },
            None => {
                if m < np {
                    assert(key_at(primary, w, m) == k);
                }
                let i = find_first_live(overflow, w, k).unwrap();
                lemma_all_records_at(primary, overflow, w, np + i);
                lemma_unique_index(primary, overflow, w, np + i, m);
            },
        }
    }
    if let Some(i) = find_first_live(primary, w, k) {
        lemma_all_records_at(primary, overflow, w, i);
    } else if let Some(i) = find_first_live(overflow, w, k) {
        lemma_all_records_at(primary, overflow, w, np + i);
    }
}

/// A file whose keys strictly increase holds no live key twice, and a lookup
/// of each of its keys owes the record that holds it.
proof fn lemma_sorted_unique(data: Seq<u8>, w: nat)
    requires
        w >= 8,
        keys_strictly_sorted(data, w),
    ensures
        unique_live(data, Seq::<u8>::empty(), w),
        all_records(data, Seq::<u8>::empty(), w) == records(data, w),
        forall|i: int|
            0 <= i < record_count(data, w) && live_key(key_at(data, w, i)) ==> #[trigger] store_get(
                data,
                Seq::<u8>::empty(),
                w,
                key_at(data, w, i),
            ) == Some(record_at(data, w, i)),
{
    let e = Seq::<u8>::empty();
    assert(records(e, w).len() == 0);
    assert(all_records(data, e, w) =~= records(data, w));
    let all = all_records(data, e, w);
    assert forall|a: int, b: int|
        0 <= a < b < all.len() && live_key(key_of(#[trigger] all[a])) implies key_of(all[a])
        != key_of(#[trigger] all[b]) by {
        lemma_key_at_record(data, w, a);
        lemma_key_at_record(data, w, b);
    }
    assert forall|i: int|
        0 <= i < record_count(data, w) && live_key(key_at(data, w, i)) implies #[trigger] store_get(
        data,
        e,
        w,
        key_at(data, w, i),
    ) == Some(record_at(data, w, i)) by {
        crate::engine::lemma_first_match(data, w, key_at(data, w, i), i);
    }
}

/// Reorganizing a consistent store keeps it consistent, with an empty
/// overflow file, and every lookup owes the same record as before.
pub proof fn lemma_reorganize_keeps_store(
    primary: Seq<u8>,
    overflow: Seq<u8>,
    w: nat,
    idx: IndiceParcial,
    primary2: Seq<u8>,
    idx2: IndiceParcial,
)
    requires
        store_wf(primary, overflow, w, idx),
        reorganized(primary2, all_records(primary, overflow, w), w),
        idx2.fator_esparsidade == idx.fator_esparsidade,
        samples(primary2, w, idx2.fator_esparsidade as nat, idx2.entradas@),
    ensures
        store_wf(primary2, Seq::<u8>::empty(), w, idx2),
        forall|k: i64|
            #[trigger] store_get(primary2, Seq::<u8>::empty(), w, k) == store_get(
                primary,
                overflow,
                w,
                k,
            ),
{
    let e = Seq::<u8>::empty();
    let all = all_records(primary, overflow, w);
    lemma_reorganize_result(primary, overflow, primary2, w, idx2);
    lemma_whole(primary2, w);
    lemma_whole(e, w);
    assert(0 * w == 0);
    lemma_sorted_unique(primary2, w);
    assert forall|k: i64| #[trigger] store_get(primary2, e, w, k) == store_get(
        primary,
        overflow,
        w,
        k,
    ) by {
        lemma_store_get_all(primary, overflow, w, k);
        lemma_find_first_live(primary2, w, k);
        lemma_find_first_live(e, w, k);
        if has_live_key(all, k) {
            assert(has_key(primary2, w, k));
            let i = choose|i: int| 0 <= i < record_count(primary2, w) && key_at(primary2, w, i) == k;
            let j = find_first_live(primary2, w, k).unwrap();
            assert(kept_from(all, record_at(primary2, w, j)));
            let m = choose|m: int| last_live(all, m) && record_at(primary2, w, j) == all[m];
            lemma_key_at_record(primary2, w, j);
        } else {
            if let Some(j) = find_first_live(primary2, w, k) {
                assert(has_key(primary2, w, k));
            }
        }
    }
}

/// A primary file freshly loaded, with strictly increasing live keys and an
/// index built over it, makes a consistent store with an empty overflow
/// file, in which a lookup of each key owes the record that holds it.
pub proof fn lemma_bulk_load_store(data: Seq<u8>, w: nat, idx: IndiceParcial)
    requires
        w >= 8,
        idx.fator_esparsidade > 0,
        data.len() == record_count(data, w) * w,
        keys_strictly_sorted(data, w),
        forall|i: int| 0 <= i < record_count(data, w) ==> live_key(#[trigger] key_at(data, w, i)),
        samples(data, w, idx.fator_esparsidade as nat, idx.entradas@),
    ensures
        store_wf(data, Seq::<u8>::empty(), w, idx),
        forall|i: int|
            0 <= i < record_count(data, w) ==> #[trigger] store_get(
                data,
                Seq::<u8>::empty(),
                w,
                key_at(data, w, i),
            ) == Some(record_at(data, w, i)),
        forall|k: i64|
            #[trigger] store_get(data, Seq::<u8>::empty(), w, k) is Some ==> has_key(data, w, k),
{
    let e = Seq::<u8>::empty();
    lemma_sorted_index_fits(data, w, idx.fator_esparsidade as nat, idx.entradas@);
    lemma_whole(data, w);
    lemma_whole(e, w);
    assert(0 * w == 0);
    lemma_sorted_unique(data, w);
    assert forall|k: i64| #[trigger] store_get(data, e, w, k) is Some implies has_key(data, w, k) by {
        lemma_find_first_live(data, w, k);
        lemma_find_first_live(e, w, k);
    }
}

} // verus!
