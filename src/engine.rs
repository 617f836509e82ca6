//! The operations of a store made of a primary file, an overflow file and a
//! sparse index, and the invariant that they keep.
use crate::indice::{
    construir_indice_parcial, keys_increasing, samples, IndiceEntry, IndiceParcial, StoreError,
};
use crate::store::{
    all_records, find_first_live, find_live, key_at, key_at_pos, key_of, kill_record,
    lemma_find_first_live, lemma_key_at_record, lemma_record_in_bounds, live_key, merge_live,
    needs_reorganization, record_at, record_count, record_slice, reorganized, tombstone_key,
    window_find, window_scan, append_record,
};
use crate::laws::{
    lemma_append_keeps_store, lemma_delete_keeps_store, lemma_reorganize_keeps_store,
    lemma_reorganize_result, lemma_whole, store_wf, whole,
};
use vstd::prelude::*;

verus! {

/// Live keys strictly increase along the records of `data`; dead records may
/// stand anywhere.
pub open spec fn live_sorted(data: Seq<u8>, w: nat) -> bool {
    forall|i: int, j: int|
        0 <= i < j < record_count(data, w) && live_key(key_at(data, w, i)) && live_key(
            key_at(data, w, j),
        ) ==> key_at(data, w, i) < key_at(data, w, j)
}

/// The index fits the primary file: entry `j` sits at record `j * f` and its
/// key bounds the live keys (those of earlier records are smaller, the others
/// are not); the record it names holds that key unless it has been deleted
/// since; the entries cover every record.
pub open spec fn index_fits(data: Seq<u8>, w: nat, f: nat, es: Seq<IndiceEntry>) -> bool {
    &&& f > 0
    &&& es.len() * f >= record_count(data, w)
    &&& keys_increasing(es)
    &&& forall|j: int| 0 <= j < es.len() ==> #[trigger] entry_placed(data, w, f, es, j)
    &&& forall|j: int, r: int|
        #![trigger es[j], key_at(data, w, r)]
        0 <= j < es.len() && 0 <= r < record_count(data, w) && live_key(key_at(data, w, r)) ==> {
            &&& r < j * f ==> key_at(data, w, r) < es[j].chave
            &&& r >= j * f ==> es[j].chave <= key_at(data, w, r)
        }
}

/// Entry `j` names record `j * f` by its byte offset and holds a live key.
pub open spec fn entry_placed(data: Seq<u8>, w: nat, f: nat, es: Seq<IndiceEntry>, j: int) -> bool {
    &&& j * f < record_count(data, w)
    &&& es[j].posicao == j * f * w
    &&& live_key(es[j].chave)
}

/// The byte offset where the window of entry `i` ends.
pub open spec fn window_end(es: Seq<IndiceEntry>, i: int, len: nat) -> int {
    if i + 1 < es.len() {
        es[i + 1].posicao as int
    } else {
        len as int
    }
}

/// A window scan from `pos` only answers with a live record holding `k`,
/// a whole number of records after `pos`.
pub proof fn lemma_window_sound(data: Seq<u8>, w: nat, pos: int, end: int, k: i64)
    ensures
        window_find(data, w, pos, end, k) matches Some(p) ==> {
            &&& w > 0
            &&& pos <= p
            &&& (p - pos) % (w as int) == 0
            &&& p + w <= data.len()
            &&& key_at_pos(data, p) == k
            &&& live_key(k)
        },
    decreases data.len() - pos,
{
    if w > 0 && 0 <= pos && pos < end && pos + w <= data.len() {
        let key = key_at_pos(data, pos);
        if key == k && live_key(k) {
            assert(0int % (w as int) == 0) by {
                vstd::arithmetic::div_mod::lemma_small_mod(0, w);
            }
        } else if !(key > k && live_key(key)) {
            lemma_window_sound(data, w, pos + w, end, k);
            if let Some(p) = window_find(data, w, pos + w, end, k) {
                assert((p - pos) % (w as int) == 0) by {
                    vstd::arithmetic::div_mod::lemma_mod_add_multiples_vanish(
                        (p - pos - w) as int,
                        w as int,
                    );
                }
            }
        }
    }
}

/// A window scan from record `q` reaches the live record `r` holding `k`
/// when every live record between them holds a smaller key and `r` starts
/// before the window's end.
pub proof fn lemma_window_complete(data: Seq<u8>, w: nat, q: int, r: int, end: int, k: i64)
    requires
        w >= 8,
        0 <= q <= r < record_count(data, w),
        r * w < end,
        key_at(data, w, r) == k,
        live_key(k),
        forall|x: int|
            q <= x < r && live_key(key_at(data, w, x)) ==> key_at(data, w, x) < k,
    ensures
        window_find(data, w, q * w, end, k) == Some(r * w),
    decreases r - q,
{
    lemma_record_in_bounds(data, w, q);
    assert(q * w <= r * w) by (nonlinear_arith)
        requires
            q <= r,
            w > 0,
    ;
    let pos = q * w;
    assert(key_at_pos(data, pos) == key_at(data, w, q));
    assert(w > 0 && 0 <= pos && pos < end && pos + w <= data.len());
    if q < r {
        assert((q + 1) * w == q * w + w) by (nonlinear_arith);
        lemma_window_complete(data, w, q + 1, r, end, k);
        assert(window_find(data, w, pos + w, end, k) == Some(r * w));
    }
}

/// The record that a lookup of `k` owes: the first live record with key `k`
/// in the primary file, else the first in the overflow file.
pub open spec fn store_get(primary: Seq<u8>, overflow: Seq<u8>, w: nat, k: i64) -> Option<
    Seq<u8>,
> {
    match find_first_live(primary, w, k) {
        Some(i) => Some(record_at(primary, w, i)),
        None => match find_first_live(overflow, w, k) {
            Some(i) => Some(record_at(overflow, w, i)),
            None => None,
        },
    }
}

/// The primary file is sorted by its live keys and the index fits it.
pub open spec fn primary_indexed(primary: Seq<u8>, w: nat, idx: IndiceParcial) -> bool {
    &&& w >= 8
    &&& live_sorted(primary, w)
    &&& index_fits(primary, w, idx.fator_esparsidade as nat, idx.entradas@)
}

/// Looks `k` up in the primary file: the index gives a window, which is
/// scanned. Gives the byte offset of the record found.
pub fn lookup_primary(primary: &[u8], w: usize, idx: &IndiceParcial, k: i64) -> (r: Option<usize>)
    requires
        w >= 8,
    ensures
        r matches Some(p) ==> p + w <= primary@.len() && key_at_pos(primary@, p as int) == k
            && live_key(k),
        primary_indexed(primary@, w as nat, *idx) ==> match find_first_live(primary@, w as nat, k) {
            Some(i) => r == Some((i * w) as usize),
            None => r is None,
        },
{
    let ghost wn = w as nat;
    let ghost f = idx.fator_esparsidade as nat;
    let ghost es = idx.entradas@;
    let ghost n = record_count(primary@, wn);
    proof {
        lemma_find_first_live(primary@, wn, k);
    }
    let loc = idx.buscar_posicao(k);
    match loc {
        None => {
            proof {
                if primary_indexed(primary@, wn, *idx) {
                    assert(es.len() * f == 0) by (nonlinear_arith)
                        requires
                            es.len() == 0,
                    ;
                    assert(n == 0);
                }
            }
            None
        },
        Some((i, start)) => {
            let ne = idx.entradas.len();
            let end = if i + 1 < ne {
                idx.entradas[i + 1].posicao
            } else {
                primary.len() as u64
            };
            let r = window_scan(primary, w, start, end, k);
            proof {
                lemma_window_sound(primary@, wn, start as int, end as int, k);
                if primary_indexed(primary@, wn, *idx) {
                    assert(entry_placed(primary@, wn, f, es, i as int));
                    if i + 1 < es.len() {
                        assert(entry_placed(primary@, wn, f, es, i + 1));
                    }
                    let s: int = if start == 0 && es[i as int].chave > k { 0 } else { i * f };
                    assert(start == s * wn) by {
                        if !(start == 0 && es[i as int].chave > k) {
                            assert(es[i as int].posicao == i * f * wn);
                        } else {
                            assert(0 * wn == 0);
                        }
                    }
                    assert(s <= n) by {
                        if s != 0 {
                            assert(i * f < n);
                        }
                    }
                    if i + 1 < es.len() {
                        assert(es[i as int].chave < es[i + 1].chave);
                        assert(es[i + 1].chave > k);
                    }
                    match find_first_live(primary@, wn, k) {
                        Some(r0) => {
                            if s > 0 {
                                assert(es[i as int].chave <= k);
                                assert(r0 >= s);
                            }
                            assert(r0 * wn < end) by {
                                if i + 1 < es.len() {
                                    assert(r0 < (i + 1) * f);
                                    assert(r0 * wn < (i + 1) * f * wn) by (nonlinear_arith)
                                        requires
                                            r0 < (i + 1) * f,
                                            wn > 0,
                                    ;
                                } else {
                                    lemma_record_in_bounds(primary@, wn, r0);
                                }
                            }
                            lemma_window_complete(primary@, wn, s, r0, end as int, k);
                        },
                        None => {
                            if let Some(p) = r {
                                let m = (p - start) / (wn as int);
                                assert(p == (s + m) * wn) by (nonlinear_arith)
                                    requires
                                        (p - start) % (wn as int) == 0,
                                        m == (p - start) / (wn as int),
                                        start == s * wn,
                                        wn > 0,
                                        p >= start,
                                ;
                                assert(s + m < n) by (nonlinear_arith)
                                    requires
                                        p == (s + m) * wn,
                                        p + wn <= primary@.len(),
                                        n == primary@.len() / wn,
                                        wn > 0,
                                        s + m >= 0,
                                ;
                                assert(key_at(primary@, wn, s + m) == k);
                            }
                        },
                    }
                }
            }
            r
        },
    }
}

/// A record that a forward scan meets first is the one `find_first_live`
/// names.
pub proof fn lemma_first_match(data: Seq<u8>, w: nat, k: i64, i: int)
    requires
        0 <= i < record_count(data, w),
        live_key(k),
        key_at(data, w, i) == k,
        forall|j: int| 0 <= j < i ==> key_at(data, w, j) != k,
    ensures
        find_first_live(data, w, k) == Some(i),
{
    lemma_find_first_live(data, w, k);
    let i2 = find_first_live(data, w, k).unwrap();
    if i2 < i {
        assert(key_at(data, w, i2) != k);
    } else if i2 > i {
        assert(key_at(data, w, i) != k);
    }
}

/// Looks `k` up: in the primary file through the index, then in the overflow
/// file. Gives the record found.
pub fn lookup<'a>(primary: &'a [u8], overflow: &'a [u8], w: usize, idx: &IndiceParcial, k: i64) -> (r:
    Option<&'a [u8]>)
    requires
        w >= 8,
    ensures
        r matches Some(rec) ==> rec@.len() == w && key_of(rec@) == k && live_key(k),
        primary_indexed(primary@, w as nat, *idx) ==> match r {
            Some(rec) => store_get(primary@, overflow@, w as nat, k) == Some(rec@),
            None => store_get(primary@, overflow@, w as nat, k) is None,
        },
{
    let ghost wn = w as nat;
    proof {
        lemma_find_first_live(primary@, wn, k);
        lemma_find_first_live(overflow@, wn, k);
    }
    match lookup_primary(primary, w, idx, k) {
        Some(p) => {
            let _len = primary.len();
            let rec = &primary[p..p + w];
            proof {
                assert(rec@.subrange(0, 8) =~= primary@.subrange(p as int, p + 8));
                if primary_indexed(primary@, wn, *idx) {
                    let i = find_first_live(primary@, wn, k).unwrap();
                    lemma_record_in_bounds(primary@, wn, i);
                    assert(rec@ == record_at(primary@, wn, i));
                }
            }
            Some(rec)
        },
        None => match find_live(overflow, w, k) {
            Some(i) => {
                let rec = record_slice(overflow, w, i);
                proof {
                    lemma_key_at_record(overflow@, wn, i as int);
                    lemma_first_match(overflow@, wn, k, i as int);
                }
                Some(rec)
            },
            None => None,
        },
    }
}

/// Deletes the live record with key `k`: the first one in the primary file,
/// else the first one in the overflow file, by overwriting its key with the
/// tombstone marker. Tells whether a record was deleted.
pub fn delete(primary: &mut Vec<u8>, overflow: &mut Vec<u8>, w: usize, k: i64) -> (r: bool)
    requires
        w >= 8,
    ensures
        match find_first_live(old(primary)@, w as nat, k) {
            Some(i) => r && final(primary)@ == kill_record(old(primary)@, w as nat, i)
                && final(overflow)@ == old(overflow)@,
            None => match find_first_live(old(overflow)@, w as nat, k) {
                Some(i) => r && final(overflow)@ == kill_record(old(overflow)@, w as nat, i)
                    && final(primary)@ == old(primary)@,
                None => !r && final(primary)@ == old(primary)@ && final(overflow)@ == old(overflow)@,
            },
        },
        final(primary)@.len() == old(primary)@.len(),
        final(overflow)@.len() == old(overflow)@.len(),
        forall|idx: IndiceParcial|
            #[trigger] store_wf(old(primary)@, old(overflow)@, w as nat, idx) ==> {
                &&& store_wf(final(primary)@, final(overflow)@, w as nat, idx)
                &&& store_get(final(primary)@, final(overflow)@, w as nat, k) is None
                &&& forall|k2: i64|
                    k2 != k ==> #[trigger] store_get(final(primary)@, final(overflow)@, w as nat, k2)
                        == store_get(old(primary)@, old(overflow)@, w as nat, k2)
            },
{
    let ghost (p_before, o_before) = (primary@, overflow@);
    let r = if tombstone_key(primary, w, k) {
        true
    } else {
        tombstone_key(overflow, w, k)
    };
    proof {
        assert forall|idx: IndiceParcial| #[trigger] store_wf(p_before, o_before, w as nat, idx) implies {
            &&& store_wf(primary@, overflow@, w as nat, idx)
            &&& store_get(primary@, overflow@, w as nat, k) is None
            &&& forall|k2: i64|
                k2 != k ==> #[trigger] store_get(primary@, overflow@, w as nat, k2) == store_get(
                    p_before,
                    o_before,
                    w as nat,
                    k2,
                )
        } by {
            lemma_delete_keeps_store(p_before, o_before, w as nat, idx, k, primary@, overflow@);
        }
        lemma_find_first_live(p_before, w as nat, k);
        lemma_find_first_live(o_before, w as nat, k);
    }
    r
}

/// Merges the overflow file into the primary file: the new primary holds one
/// record per live key, sorted, the overflow file is emptied, and the index
/// is rebuilt with its sparsity factor.
pub fn reorganize(primary: &mut Vec<u8>, overflow: &mut Vec<u8>, w: usize, idx: &mut IndiceParcial)
    requires
        w >= 8,
        old(idx).fator_esparsidade > 0,
    ensures
        reorganized(final(primary)@, all_records(old(primary)@, old(overflow)@, w as nat), w as nat),
        final(overflow)@.len() == 0,
        final(idx).fator_esparsidade == old(idx).fator_esparsidade,
        samples(
            final(primary)@,
            w as nat,
            old(idx).fator_esparsidade as nat,
            final(idx).entradas@,
        ),
        whole(final(primary)@, w as nat),
        primary_indexed(final(primary)@, w as nat, *final(idx)),
        store_wf(old(primary)@, old(overflow)@, w as nat, *old(idx)) ==> {
            &&& store_wf(final(primary)@, final(overflow)@, w as nat, *final(idx))
            &&& forall|k: i64|
                #[trigger] store_get(final(primary)@, final(overflow)@, w as nat, k) == store_get(
                    old(primary)@,
                    old(overflow)@,
                    w as nat,
                    k,
                )
        },
{
    let ghost (p_before, o_before, idx_before) = (primary@, overflow@, *idx);
    let merged = merge_live(primary.as_slice(), overflow.as_slice(), w);
    *primary = merged;
    overflow.clear();
    let f = idx.fator_esparsidade;
    *idx = construir_indice_parcial(primary.as_slice(), w, f);
    proof {
        lemma_reorganize_result(p_before, o_before, primary@, w as nat, *idx);
        lemma_whole(primary@, w as nat);
        assert(overflow@ =~= Seq::<u8>::empty());
        if store_wf(p_before, o_before, w as nat, idx_before) {
            lemma_reorganize_keeps_store(p_before, o_before, w as nat, idx_before, primary@, *idx);
        }
    }
}

/// Inserts the record `rec`: it is appended to the overflow file, and the
/// store is reorganized when the overflow file has grown past a tenth of the
/// primary file. A record whose key is the tombstone marker is refused.
/// Tells whether the store was reorganized.
pub fn insert(
    primary: &mut Vec<u8>,
    overflow: &mut Vec<u8>,
    rec: &[u8],
    w: usize,
    idx: &mut IndiceParcial,
) -> (r: Result<bool, StoreError>)
    requires
        w >= 8,
        rec@.len() == w,
        old(idx).fator_esparsidade > 0,
        old(overflow)@.len() + w <= usize::MAX,
    ensures
        !live_key(key_of(rec@)) ==> {
            &&& r == Err::<bool, StoreError>(StoreError::InvalidInput)
            &&& final(primary)@ == old(primary)@
            &&& final(overflow)@ == old(overflow)@
            &&& *final(idx) == *old(idx)
        },
        live_key(key_of(rec@)) && !(10 * (old(overflow)@.len() + w) > old(primary)@.len()) ==> {
            &&& r == Ok::<bool, StoreError>(false)
            &&& final(overflow)@ == old(overflow)@ + rec@
            &&& final(primary)@ == old(primary)@
            &&& *final(idx) == *old(idx)
        },
        live_key(key_of(rec@)) && 10 * (old(overflow)@.len() + w) > old(primary)@.len() ==> {
            &&& r == Ok::<bool, StoreError>(true)
            &&& reorganized(
                final(primary)@,
                all_records(old(primary)@, old(overflow)@ + rec@, w as nat),
                w as nat,
            )
            &&& final(overflow)@.len() == 0
            &&& final(idx).fator_esparsidade == old(idx).fator_esparsidade
            &&& samples(
                final(primary)@,
                w as nat,
                old(idx).fator_esparsidade as nat,
                final(idx).entradas@,
            )
        },
        whole(old(primary)@, w as nat) && whole(old(overflow)@, w as nat) ==> whole(
            final(primary)@,
            w as nat,
        ) && whole(final(overflow)@, w as nat),
        store_wf(old(primary)@, old(overflow)@, w as nat, *old(idx)) && live_key(key_of(rec@))
            && store_get(old(primary)@, old(overflow)@, w as nat, key_of(rec@)) is None ==> {
            &&& store_wf(final(primary)@, final(overflow)@, w as nat, *final(idx))
            &&& forall|k: i64|
                #[trigger] store_get(final(primary)@, final(overflow)@, w as nat, k) == if k
                    == key_of(rec@) {
                    Some(rec@)
                } else {
                    store_get(old(primary)@, old(overflow)@, w as nat, k)
                }
        },
{
    let ghost (p_before, o_before, idx_before) = (primary@, overflow@, *idx);
    let key = crate::codec::read_i64(rec, 0);
    if key == crate::codec::TOMBSTONE {
        return Err(StoreError::InvalidInput);
    }
    append_record(overflow, rec);
    let ghost o_grown = overflow@;
    proof {
        if whole(o_before, w as nat) {
            lemma_whole(o_before, w as nat);
            crate::store::lemma_push_record(o_before, rec@, w as nat);
            lemma_whole(o_grown, w as nat);
        }
        if store_wf(p_before, o_before, w as nat, idx_before) && store_get(p_before, o_before, w as nat, key) is None {
            lemma_append_keeps_store(p_before, o_before, rec@, w as nat, idx_before);
        }
    }
    if needs_reorganization(primary.len(), overflow.len()) {
        reorganize(primary, overflow, w, idx);
        proof {
            lemma_whole(overflow@, w as nat);
            assert(0 * w == 0);
        }
        Ok(true)
    } else {
        Ok(false)
    }
}

} // verus!
