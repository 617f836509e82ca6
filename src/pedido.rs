//! Order records: their fixed-width layout and the order store.
use crate::codec::{
    canonical_slot, canonical_text, i64_le, le_i64, lemma_i64_round_trip, lemma_slot_round_trip,
    lemma_text_round_trip, push_i64, push_text_slot, push_u64, read_i64, read_text_slot, read_u64,
    slot_text, text_slot,
};
use crate::engine::{delete, insert, lookup, lookup_primary, primary_indexed, reorganize, store_get};
use crate::laws::{has_key, lemma_bulk_load_store, store_wf, whole};
use crate::indice::{samples, IndiceParcial, StoreError};
use crate::store::{
    all_records, append_record, binary_search_records, find_first_live, find_live, is_permutation,
    key_at, key_of, keys_strictly_sorted, kill_record, lemma_find_first_live,
    lemma_key_at_record, lemma_push_record, lemma_record_in_bounds, live_key, record_at,
    record_count, record_slice, reorganized, sorted_order, tombstone_key,
};
use vstd::bytes::*;
use vstd::prelude::*;

verus! {

/// An order. The price is kept as the bit pattern of an IEEE-754 double.
#[derive(Debug, Clone, PartialEq)]
pub struct Pedido {
    pub order_id: i64,
    pub user_id: i64,
    pub event_time: String,
    pub product_id: i64,
    pub price_bits: u64,
}

/// The values an order holds.
pub struct PedidoView {
    pub order_id: i64,
    pub user_id: i64,
    pub event_time: Seq<char>,
    pub product_id: i64,
    pub price_bits: u64,
}

impl View for Pedido {
    type V = PedidoView;

    open spec fn view(&self) -> PedidoView {
        PedidoView {
            order_id: self.order_id,
            user_id: self.user_id,
            event_time: self.event_time@,
            product_id: self.product_id,
            price_bits: self.price_bits,
        }
    }
}

/// Width in bytes of an order record.
pub const PEDIDO_WIDTH: usize = 62;

/// The record of `p`: order id, user id, event time (30 bytes), product id
/// and price.
pub open spec fn pedido_bytes(p: PedidoView) -> Seq<u8> {
    i64_le(p.order_id) + i64_le(p.user_id) + text_slot(p.event_time, 30) + i64_le(p.product_id)
        + spec_u64_to_le_bytes(p.price_bits)
}

/// The order that the record `b` holds.
pub open spec fn pedido_of(b: Seq<u8>) -> PedidoView {
    PedidoView {
        order_id: le_i64(b.subrange(0, 8)),
        user_id: le_i64(b.subrange(8, 16)),
        event_time: slot_text(b.subrange(16, 46)),
        product_id: le_i64(b.subrange(46, 54)),
        price_bits: spec_u64_from_le_bytes(b.subrange(54, 62)),
    }
}

/// An order whose event time fits its slot and ends in no space.
pub open spec fn canonical_pedido(p: PedidoView) -> bool {
    canonical_text(p.event_time, 30)
}

/// A record whose text slot holds valid UTF-8.
pub open spec fn canonical_pedido_record(b: Seq<u8>) -> bool {
    b.len() == PEDIDO_WIDTH && canonical_slot(b.subrange(16, 46))
}

impl Pedido {
    /// Encodes the order as one record.
    pub fn to_bytes(&self) -> (r: Vec<u8>)
        ensures
            r@ == pedido_bytes(self@),
            r@.len() == PEDIDO_WIDTH,
    {
        let mut out: Vec<u8> = Vec::new();
        push_i64(&mut out, self.order_id);
        push_i64(&mut out, self.user_id);
        push_text_slot(&mut out, &self.event_time, 30);
        push_i64(&mut out, self.product_id);
        push_u64(&mut out, self.price_bits);
        proof {
            lemma_auto_spec_u64_to_from_le_bytes();
            assert(out@ =~= pedido_bytes(self@));
        }
        out
    }

    /// Decodes one record.
    pub fn from_bytes(bytes: &[u8]) -> (r: Pedido)
        requires
            bytes@.len() == PEDIDO_WIDTH,
        ensures
            r@ == pedido_of(bytes@),
    {
        let order_id = read_i64(bytes, 0);
        let user_id = read_i64(bytes, 8);
        let event_time = read_text_slot(bytes, 16, 30);
        let product_id = read_i64(bytes, 46);
        let price_bits = read_u64(bytes, 54);
        Pedido { order_id, user_id, event_time, product_id, price_bits }
    }
}

/// Decoding the record of a canonical order gives the order back.
pub proof fn lemma_pedido_decode_encode(p: PedidoView)
    requires
        canonical_pedido(p),
    ensures
        pedido_bytes(p).len() == PEDIDO_WIDTH,
        pedido_of(pedido_bytes(p)) == p,
{
    lemma_auto_spec_u64_to_from_le_bytes();
    lemma_slot_round_trip(p.event_time, 30);
    let b = pedido_bytes(p);
    assert(b.subrange(0, 8) =~= i64_le(p.order_id));
    assert(b.subrange(8, 16) =~= i64_le(p.user_id));
    assert(b.subrange(16, 46) =~= text_slot(p.event_time, 30));
    assert(b.subrange(46, 54) =~= i64_le(p.product_id));
    assert(b.subrange(54, 62) =~= spec_u64_to_le_bytes(p.price_bits));
    lemma_i64_round_trip(p.order_id, b.subrange(0, 8));
    lemma_i64_round_trip(p.user_id, b.subrange(8, 16));
    lemma_i64_round_trip(p.product_id, b.subrange(46, 54));
}

/// Encoding the order of a canonical record gives the record back.
pub proof fn lemma_pedido_encode_decode(b: Seq<u8>)
    requires
        canonical_pedido_record(b),
    ensures
        canonical_pedido(pedido_of(b)),
        pedido_bytes(pedido_of(b)) == b,
{
    lemma_auto_spec_u64_to_from_le_bytes();
    lemma_text_round_trip(b.subrange(16, 46));
    lemma_i64_round_trip(0, b.subrange(0, 8));
    lemma_i64_round_trip(0, b.subrange(8, 16));
    lemma_i64_round_trip(0, b.subrange(46, 54));
    assert(pedido_bytes(pedido_of(b)) =~= b);
}

/// A copy of `p`.
fn copy_pedido(p: &Pedido) -> (r: Pedido)
    ensures
        r@ == p@,
{
    Pedido {
        order_id: p.order_id,
        user_id: p.user_id,
        event_time: p.event_time.clone(),
        product_id: p.product_id,
        price_bits: p.price_bits,
    }
}

/// `data` holds exactly the records of `ps`, in order.
pub open spec fn holds_pedidos(data: Seq<u8>, ps: Seq<Pedido>) -> bool {
    &&& data.len() == ps.len() * PEDIDO_WIDTH
    &&& record_count(data, PEDIDO_WIDTH as nat) == ps.len()
    &&& forall|i: int|
        0 <= i < ps.len() ==> #[trigger] record_at(data, PEDIDO_WIDTH as nat, i) == pedido_bytes(
            ps[i]@,
        )
}

/// Sorts the orders by id and lays them out as a primary file.
pub fn inserir_pedidos_ordenados(pedidos: &mut Vec<Pedido>) -> (r: Vec<u8>)
    ensures
        exists|perm: Seq<usize>|
            is_permutation(perm, old(pedidos)@.len()) && forall|i: int|
                0 <= i < perm.len() ==> (#[trigger] final(pedidos)@[i])@ == old(pedidos)@[perm[i] as int]@,
        final(pedidos)@.len() == old(pedidos)@.len(),
        forall|i: int, j: int|
            0 <= i < j < final(pedidos)@.len() ==> final(pedidos)@[i].order_id <= final(pedidos)@[j].order_id,
        holds_pedidos(r@, final(pedidos)@),
{
    let n = pedidos.len();
    let mut keys: Vec<i64> = Vec::new();
    let mut i: usize = 0;
    while i < n
        invariant
            n == pedidos@.len(),
            i <= n,
            keys@.len() == i,
            forall|t: int| 0 <= t < i ==> #[trigger] keys@[t] == pedidos@[t].order_id,
        decreases n - i,
    {
        keys.push(pedidos[i].order_id);
        i = i + 1;
    }
    let order = sorted_order(&keys);
    let mut sorted: Vec<Pedido> = Vec::new();
    let mut t: usize = 0;
    while t < n
        invariant
            n == pedidos@.len(),
            n == keys@.len(),
            is_permutation(order@, n as nat),
            forall|u: int| 0 <= u < n ==> #[trigger] keys@[u] == pedidos@[u].order_id,
            t <= n,
            sorted@.len() == t,
            forall|u: int| 0 <= u < t ==> (#[trigger] sorted@[u])@ == pedidos@[order@[u] as int]@,
        decreases n - t,
    {
        let p = copy_pedido(&pedidos[order[t]]);
        sorted.push(p);
        t = t + 1;
    }
    proof {
        assert forall|a: int, b: int| 0 <= a < b < sorted@.len() implies sorted@[a].order_id
            <= sorted@[b].order_id by {
            assert(keys@[order@[a] as int] <= keys@[order@[b] as int]);
        }
    }
    *pedidos = sorted;
    let mut out: Vec<u8> = Vec::new();
    let mut t: usize = 0;
    while t < n
        invariant
            n == pedidos@.len(),
            t <= n,
            holds_pedidos(out@, pedidos@.take(t as int)),
        decreases n - t,
    {
        let bytes = pedidos[t].to_bytes();
        proof {
            lemma_push_record(out@, bytes@, PEDIDO_WIDTH as nat);
            assert forall|u: int| 0 <= u < t + 1 implies #[trigger] record_at(
                out@ + bytes@,
                PEDIDO_WIDTH as nat,
                u,
            ) == pedido_bytes(pedidos@.take(t + 1)[u]@) by {
                if u < t {
                    assert(record_at(out@, PEDIDO_WIDTH as nat, u) == pedido_bytes(
                        pedidos@.take(t as int)[u]@,
                    ));
                }
            }
        }
        append_record(&mut out, bytes.as_slice());
        t = t + 1;
    }
    proof {
        assert(pedidos@.take(n as int) =~= pedidos@);
    }
    out
}

/// The orders of the first `limite` records of a file.
pub fn mostrar_pedidos(dados: &[u8], limite: usize) -> (r: Vec<Pedido>)
    ensures
        r@.len() == if limite < record_count(dados@, PEDIDO_WIDTH as nat) {
            limite as nat
        } else {
            record_count(dados@, PEDIDO_WIDTH as nat)
        },
        forall|i: int|
            0 <= i < r@.len() ==> (#[trigger] r@[i])@ == pedido_of(
                record_at(dados@, PEDIDO_WIDTH as nat, i),
            ),
{
    let n = dados.len() / PEDIDO_WIDTH;
    let m = if limite < n {
        limite
    } else {
        n
    };
    let mut out: Vec<Pedido> = Vec::new();
    let mut i: usize = 0;
    while i < m
        invariant
            n == record_count(dados@, PEDIDO_WIDTH as nat),
            m <= n,
            i <= m,
            out@.len() == i,
            forall|t: int|
                0 <= t < i ==> (#[trigger] out@[t])@ == pedido_of(
                    record_at(dados@, PEDIDO_WIDTH as nat, t),
                ),
        decreases m - i,
    {
        let rec = record_slice(dados, PEDIDO_WIDTH, i);
        out.push(Pedido::from_bytes(rec));
        i = i + 1;
    }
    out
}

/// Binary search of a primary file for the order with id `chave`. When
/// ids strictly increase along the file, it finds the order whenever it is
/// there.
pub fn busca_binaria_arquivo_pedido(dados: &[u8], chave: i64) -> (r: Option<Pedido>)
    ensures
        r matches Some(p) ==> exists|i: int|
            0 <= i < record_count(dados@, PEDIDO_WIDTH as nat) && key_at(
                dados@,
                PEDIDO_WIDTH as nat,
                i,
            ) == chave && p@ == pedido_of(record_at(dados@, PEDIDO_WIDTH as nat, i)),
        r is None && keys_strictly_sorted(dados@, PEDIDO_WIDTH as nat) ==> forall|i: int|
            0 <= i < record_count(dados@, PEDIDO_WIDTH as nat) ==> key_at(
                dados@,
                PEDIDO_WIDTH as nat,
                i,
            ) != chave,
{
    match binary_search_records(dados, PEDIDO_WIDTH, chave) {
        Some(i) => Some(Pedido::from_bytes(record_slice(dados, PEDIDO_WIDTH, i))),
        None => None,
    }
}

/// Tombstones the first live order with id `chave` in a file image.
pub fn remover_pedido(dados: &mut Vec<u8>, chave: i64) -> (r: bool)
    ensures
        match find_first_live(old(dados)@, PEDIDO_WIDTH as nat, chave) {
            Some(i) => r && final(dados)@ == kill_record(old(dados)@, PEDIDO_WIDTH as nat, i),
            None => !r && final(dados)@ == old(dados)@,
        },
{
    tombstone_key(dados, PEDIDO_WIDTH, chave)
}

/// Tombstones the first live order with id `chave` in an overflow file.
pub fn remover_pedido_do_overflow(overflow: &mut Vec<u8>, chave: i64) -> (r: bool)
    ensures
        match find_first_live(old(overflow)@, PEDIDO_WIDTH as nat, chave) {
            Some(i) => r && final(overflow)@ == kill_record(old(overflow)@, PEDIDO_WIDTH as nat, i),
            None => !r && final(overflow)@ == old(overflow)@,
        },
{
    tombstone_key(overflow, PEDIDO_WIDTH, chave)
}

/// Deletes the order with id `chave`: from the primary file if it is live
/// there, else from the overflow file.
pub fn remover_pedido_com_overflow(primary: &mut Vec<u8>, overflow: &mut Vec<u8>, chave: i64) -> (r:
    bool)
    ensures
        match find_first_live(old(primary)@, PEDIDO_WIDTH as nat, chave) {
            Some(i) => r && final(primary)@ == kill_record(old(primary)@, PEDIDO_WIDTH as nat, i)
                && final(overflow)@ == old(overflow)@,
            None => match find_first_live(old(overflow)@, PEDIDO_WIDTH as nat, chave) {
                Some(i) => r && final(overflow)@ == kill_record(
                    old(overflow)@,
                    PEDIDO_WIDTH as nat,
                    i,
                ) && final(primary)@ == old(primary)@,
                None => !r && final(primary)@ == old(primary)@ && final(overflow)@ == old(overflow)@,
            },
        },
        final(primary)@.len() == old(primary)@.len(),
        final(overflow)@.len() == old(overflow)@.len(),
        forall|idx: IndiceParcial|
            #[trigger] store_wf(old(primary)@, old(overflow)@, PEDIDO_WIDTH as nat, idx) ==> {
                &&& store_wf(final(primary)@, final(overflow)@, PEDIDO_WIDTH as nat, idx)
                &&& store_get(final(primary)@, final(overflow)@, PEDIDO_WIDTH as nat, chave) is None
                &&& forall|k2: i64|
                    k2 != chave ==> #[trigger] store_get(
                        final(primary)@,
                        final(overflow)@,
                        PEDIDO_WIDTH as nat,
                        k2,
                    ) == store_get(old(primary)@, old(overflow)@, PEDIDO_WIDTH as nat, k2)
            },
{
    delete(primary, overflow, PEDIDO_WIDTH, chave)
}

/// Looks the order with id `chave` up in the primary file through the
/// index.
pub fn consultar_com_indice_pedido(dados: &[u8], indice: &IndiceParcial, chave: i64) -> (r: Option<Pedido>)
    ensures
        r matches Some(p) ==> p.order_id == chave && live_key(chave),
        primary_indexed(dados@, PEDIDO_WIDTH as nat, *indice) ==> match find_first_live(
            dados@,
            PEDIDO_WIDTH as nat,
            chave,
        ) {
            Some(i) => r matches Some(p) && p@ == pedido_of(record_at(dados@, PEDIDO_WIDTH as nat, i)),
            None => r is None,
        },
{
    match lookup_primary(dados, PEDIDO_WIDTH, indice, chave) {
        Some(p) => {
            let _len = dados.len();
            let rec = &dados[p..p + PEDIDO_WIDTH];
            proof {
                assert(rec@.subrange(0, 8) =~= dados@.subrange(p as int, p + 8));
                if primary_indexed(dados@, PEDIDO_WIDTH as nat, *indice) {
                    let i = find_first_live(dados@, PEDIDO_WIDTH as nat, chave).unwrap();
                    lemma_find_first_live(dados@, PEDIDO_WIDTH as nat, chave);
                    lemma_record_in_bounds(dados@, PEDIDO_WIDTH as nat, i);
                    assert(rec@ == record_at(dados@, PEDIDO_WIDTH as nat, i));
                }
            }
            Some(Pedido::from_bytes(rec))
        },
        None => None,
    }
}

/// The first live order with id `chave` in an overflow file.
pub fn buscar_pedido_no_overflow(overflow: &[u8], chave: i64) -> (r: Option<Pedido>)
    ensures
        match find_first_live(overflow@, PEDIDO_WIDTH as nat, chave) {
            Some(i) => r matches Some(p) && p@ == pedido_of(
                record_at(overflow@, PEDIDO_WIDTH as nat, i),
            ),
            None => r is None,
        },
        r matches Some(p) ==> p.order_id == chave,
{
    proof {
        lemma_find_first_live(overflow@, PEDIDO_WIDTH as nat, chave);
    }
    match find_live(overflow, PEDIDO_WIDTH, chave) {
        Some(i) => {
            proof {
                crate::engine::lemma_first_match(overflow@, PEDIDO_WIDTH as nat, chave, i as int);
                lemma_key_at_record(overflow@, PEDIDO_WIDTH as nat, i as int);
            }
            Some(Pedido::from_bytes(record_slice(overflow, PEDIDO_WIDTH, i)))
        },
        None => None,
    }
}

/// Looks the order with id `chave` up by binary search of the primary
/// file, then in the overflow file.
pub fn buscar_pedido_com_overflow(primary: &[u8], overflow: &[u8], chave: i64) -> (r: Option<
    Pedido,
>)
    ensures
        r matches Some(p) ==> p.order_id == chave,
        r matches Some(p) ==> (exists|i: int|
            0 <= i < record_count(primary@, PEDIDO_WIDTH as nat) && p@ == pedido_of(
                record_at(primary@, PEDIDO_WIDTH as nat, i),
            )) || (find_first_live(overflow@, PEDIDO_WIDTH as nat, chave) matches Some(i) && p@
            == pedido_of(record_at(overflow@, PEDIDO_WIDTH as nat, i))),
        keys_strictly_sorted(primary@, PEDIDO_WIDTH as nat) ==> (r is None <==> (
        find_first_live(overflow@, PEDIDO_WIDTH as nat, chave) is None && forall|i: int|
            0 <= i < record_count(primary@, PEDIDO_WIDTH as nat) ==> key_at(
                primary@,
                PEDIDO_WIDTH as nat,
                i,
            ) != chave)),
{
    match busca_binaria_arquivo_pedido(primary, chave) {
        Some(p) => {
            proof {
                let i = choose|i: int|
                    0 <= i < record_count(primary@, PEDIDO_WIDTH as nat) && key_at(
                        primary@,
                        PEDIDO_WIDTH as nat,
                        i,
                    ) == chave && p@ == pedido_of(record_at(primary@, PEDIDO_WIDTH as nat, i));
                lemma_key_at_record(primary@, PEDIDO_WIDTH as nat, i);
            }
            Some(p)
        },
        None => buscar_pedido_no_overflow(overflow, chave),
    }
}

/// Looks the order with id `chave` up: in the primary file through the
/// index, then in the overflow file.
pub fn consultar_pedido_com_indice_e_overflow(
    primary: &[u8],
    overflow: &[u8],
    indice: &IndiceParcial,
    chave: i64,
) -> (r: Option<Pedido>)
    ensures
        r matches Some(p) ==> p.order_id == chave && live_key(chave),
        primary_indexed(primary@, PEDIDO_WIDTH as nat, *indice) ==> match store_get(
            primary@,
            overflow@,
            PEDIDO_WIDTH as nat,
            chave,
        ) {
            Some(rec) => r matches Some(p) && p@ == pedido_of(rec),
            None => r is None,
        },
{
    match lookup(primary, overflow, PEDIDO_WIDTH, indice, chave) {
        Some(rec) => Some(Pedido::from_bytes(rec)),
        None => None,
    }
}

/// The key of an order's record is its id.
pub proof fn lemma_pedido_key(p: PedidoView)
    ensures
        pedido_bytes(p).len() == PEDIDO_WIDTH,
        key_of(pedido_bytes(p)) == p.order_id,
{
    crate::codec::lemma_i64_round_trip(p.order_id, seq![]);
    lemma_auto_spec_u64_to_from_le_bytes();
    assert(pedido_bytes(p).subrange(0, 8) =~= i64_le(p.order_id));
}

/// Inserts an order: its record is appended to the overflow file, and the
/// store is reorganized once the overflow file is larger than a tenth of the
/// primary file. An order whose id is the tombstone marker is refused. Tells
/// whether the store was reorganized.
pub fn inserir_novo_pedido(
    primary: &mut Vec<u8>,
    overflow: &mut Vec<u8>,
    pedido: &Pedido,
    indice: &mut IndiceParcial,
) -> (r: Result<bool, StoreError>)
    requires
        old(indice).fator_esparsidade > 0,
        old(overflow)@.len() + PEDIDO_WIDTH <= usize::MAX,
    ensures
        !live_key(pedido.order_id) ==> {
            &&& r == Err::<bool, StoreError>(StoreError::InvalidInput)
            &&& final(primary)@ == old(primary)@
            &&& final(overflow)@ == old(overflow)@
            &&& *final(indice) == *old(indice)
        },
        live_key(pedido.order_id) && !(10 * (old(overflow)@.len() + PEDIDO_WIDTH) > old(
            primary,
        )@.len()) ==> {
            &&& r == Ok::<bool, StoreError>(false)
            &&& final(overflow)@ == old(overflow)@ + pedido_bytes(pedido@)
            &&& final(primary)@ == old(primary)@
            &&& *final(indice) == *old(indice)
        },
        live_key(pedido.order_id) && 10 * (old(overflow)@.len() + PEDIDO_WIDTH) > old(
            primary,
        )@.len() ==> {
            &&& r == Ok::<bool, StoreError>(true)
            &&& reorganized(
                final(primary)@,
                all_records(old(primary)@, old(overflow)@ + pedido_bytes(pedido@), PEDIDO_WIDTH as nat),
                PEDIDO_WIDTH as nat,
            )
            &&& final(overflow)@.len() == 0
            &&& final(indice).fator_esparsidade == old(indice).fator_esparsidade
            &&& samples(
                final(primary)@,
                PEDIDO_WIDTH as nat,
                old(indice).fator_esparsidade as nat,
                final(indice).entradas@,
            )
        },
        whole(old(primary)@, PEDIDO_WIDTH as nat) && whole(old(overflow)@, PEDIDO_WIDTH as nat)
            ==> whole(final(primary)@, PEDIDO_WIDTH as nat) && whole(
            final(overflow)@,
            PEDIDO_WIDTH as nat,
        ),
        store_wf(old(primary)@, old(overflow)@, PEDIDO_WIDTH as nat, *old(indice)) && live_key(
            pedido.order_id,
        ) && store_get(old(primary)@, old(overflow)@, PEDIDO_WIDTH as nat, pedido.order_id)
            is None ==> {
            &&& store_wf(final(primary)@, final(overflow)@, PEDIDO_WIDTH as nat, *final(indice))
            &&& forall|k: i64|
                #[trigger] store_get(final(primary)@, final(overflow)@, PEDIDO_WIDTH as nat, k)
                    == if k == pedido.order_id {
                    Some(pedido_bytes(pedido@))
                } else {
                    store_get(old(primary)@, old(overflow)@, PEDIDO_WIDTH as nat, k)
                }
        },
{
    let bytes = pedido.to_bytes();
    proof {
        lemma_pedido_key(pedido@);
    }
    insert(primary, overflow, bytes.as_slice(), PEDIDO_WIDTH, indice)
}

/// Reorganizes the order store: the primary file is rewritten with one
/// record per live id, sorted, the overflow file is emptied, and the index is
/// rebuilt with its sparsity factor.
pub fn reconstruir_arquivo_e_indice_pedido(
    primary: &mut Vec<u8>,
    overflow: &mut Vec<u8>,
    indice: &mut IndiceParcial,
)
    requires
        old(indice).fator_esparsidade > 0,
    ensures
        reorganized(
            final(primary)@,
            all_records(old(primary)@, old(overflow)@, PEDIDO_WIDTH as nat),
            PEDIDO_WIDTH as nat,
        ),
        final(overflow)@.len() == 0,
        final(indice).fator_esparsidade == old(indice).fator_esparsidade,
        samples(
            final(primary)@,
            PEDIDO_WIDTH as nat,
            old(indice).fator_esparsidade as nat,
            final(indice).entradas@,
        ),
        whole(final(primary)@, PEDIDO_WIDTH as nat),
        primary_indexed(final(primary)@, PEDIDO_WIDTH as nat, *final(indice)),
        store_wf(old(primary)@, old(overflow)@, PEDIDO_WIDTH as nat, *old(indice)) ==> {
            &&& store_wf(final(primary)@, final(overflow)@, PEDIDO_WIDTH as nat, *final(indice))
            &&& forall|k: i64|
                #[trigger] store_get(final(primary)@, final(overflow)@, PEDIDO_WIDTH as nat, k)
                    == store_get(old(primary)@, old(overflow)@, PEDIDO_WIDTH as nat, k)
        },
{
    reorganize(primary, overflow, PEDIDO_WIDTH, indice);
}

/// Orders loaded in order of strictly increasing, live ids, with an index
/// built over them, make a consistent store with an empty overflow file, in
/// which a lookup of each order's id owes that order's record and a
/// lookup of any other id owes nothing.
pub proof fn lemma_pedidos_loaded(dados: Seq<u8>, ps: Seq<Pedido>, indice: IndiceParcial)
    requires
        indice.fator_esparsidade > 0,
        holds_pedidos(dados, ps),
        forall|i: int, j: int| 0 <= i < j < ps.len() ==> ps[i].order_id < ps[j].order_id,
        forall|i: int| 0 <= i < ps.len() ==> live_key(#[trigger] ps[i].order_id),
        samples(dados, PEDIDO_WIDTH as nat, indice.fator_esparsidade as nat, indice.entradas@),
    ensures
        store_wf(dados, Seq::<u8>::empty(), PEDIDO_WIDTH as nat, indice),
        forall|i: int|
            0 <= i < ps.len() ==> #[trigger] store_get(
                dados,
                Seq::<u8>::empty(),
                PEDIDO_WIDTH as nat,
                ps[i].order_id,
            ) == Some(pedido_bytes(ps[i]@)),
        forall|k: i64|
            #[trigger] store_get(dados, Seq::<u8>::empty(), PEDIDO_WIDTH as nat, k) is Some
                ==> exists|i: int| 0 <= i < ps.len() && ps[i].order_id == k,
{
    let w = PEDIDO_WIDTH as nat;
    assert forall|i: int| 0 <= i < ps.len() implies #[trigger] key_at(dados, w, i)
        == ps[i].order_id by {
        lemma_key_at_record(dados, w, i);
        lemma_pedido_key(ps[i]@);
    }
    lemma_bulk_load_store(dados, w, indice);
    assert forall|i: int| 0 <= i < ps.len() implies #[trigger] store_get(
        dados,
        Seq::<u8>::empty(),
        w,
        ps[i].order_id,
    ) == Some(pedido_bytes(ps[i]@)) by {
        assert(key_at(dados, w, i) == ps[i].order_id);
        assert(store_get(dados, Seq::<u8>::empty(), w, key_at(dados, w, i)) == Some(
            record_at(dados, w, i),
        ));
        assert(record_at(dados, w, i) == pedido_bytes(ps[i]@));
    }
    assert forall|k: i64| #[trigger] store_get(dados, Seq::<u8>::empty(), w, k) is Some implies exists|
        i: int,
    | 0 <= i < ps.len() && ps[i].order_id == k by {
        assert(has_key(dados, w, k));
        let i = choose|i: int| 0 <= i < record_count(dados, w) && key_at(dados, w, i) == k;
        assert(ps[i].order_id == k);
    }
}

} // verus!
