//! Product records: their fixed-width layout and the product store.
use crate::codec::{
    canonical_slot, canonical_text, i64_le, le_i64, lemma_i64_round_trip, lemma_slot_round_trip, lemma_text_round_trip,
    push_i64, push_text_slot, push_u64, read_i64, read_text_slot, read_u64, slot_text, text_slot,
};
use crate::engine::{delete, insert, lookup, lookup_primary, primary_indexed, reorganize, store_get};
use crate::laws::{has_key, lemma_bulk_load_store, store_wf, whole};
use crate::indice::{samples, IndiceParcial, StoreError};
use crate::store::{
    all_records, append_record, binary_search_records, find_first_live, find_live, is_permutation,
    key_at, key_of, keys_strictly_sorted, kill_record, lemma_find_first_live,
    lemma_key_at_record, lemma_push_record, lemma_record_in_bounds, live_key, record_at,
    record_count, record_slice, reorganized, sorted_order, tombstone_key,
};
use vstd::bytes::*;
use vstd::prelude::*;

verus! {

/// A product. The price is kept as the bit pattern of an IEEE-754 double.
#[derive(Debug, Clone, PartialEq)]
pub struct Produto {
    pub product_id: i64,
    pub category_alias: String,
    pub price_bits: u64,
    pub material: String,
    pub stone: String,
}

/// The values a product holds.
pub struct ProdutoView {
    pub product_id: i64,
    pub category_alias: Seq<char>,
    pub price_bits: u64,
    pub material: Seq<char>,
    pub stone: Seq<char>,
}

impl View for Produto {
    type V = ProdutoView;

    open spec fn view(&self) -> ProdutoView {
        ProdutoView {
            product_id: self.product_id,
            category_alias: self.category_alias@,
            price_bits: self.price_bits,
            material: self.material@,
            stone: self.stone@,
        }
    }
}

/// Width in bytes of a product record.
pub const PRODUTO_WIDTH: usize = 87;

/// The byte that closes every product record.
pub const NEWLINE: u8 = 0x0A;

/// The record of `p`: id, category (30 bytes), price, material (20 bytes),
/// stone (20 bytes) and a newline.
pub open spec fn produto_bytes(p: ProdutoView) -> Seq<u8> {
    i64_le(p.product_id) + text_slot(p.category_alias, 30) + spec_u64_to_le_bytes(p.price_bits)
        + text_slot(p.material, 20) + text_slot(p.stone, 20) + seq![NEWLINE]
}

/// The product that the record `b` holds.
pub open spec fn produto_of(b: Seq<u8>) -> ProdutoView {
    ProdutoView {
        product_id: le_i64(b.subrange(0, 8)),
        category_alias: slot_text(b.subrange(8, 38)),
        price_bits: spec_u64_from_le_bytes(b.subrange(38, 46)),
        material: slot_text(b.subrange(46, 66)),
        stone: slot_text(b.subrange(66, 86)),
    }
}

/// A product whose texts fit their slots and end in no space.
pub open spec fn canonical_produto(p: ProdutoView) -> bool {
    canonical_text(p.category_alias, 30) && canonical_text(p.material, 20) && canonical_text(
        p.stone,
        20,
    )
}

/// A record whose text slots hold valid UTF-8 and whose last byte is a newline.
pub open spec fn canonical_produto_record(b: Seq<u8>) -> bool {
    b.len() == PRODUTO_WIDTH && canonical_slot(b.subrange(8, 38)) && canonical_slot(
        b.subrange(46, 66),
    ) && canonical_slot(b.subrange(66, 86)) && b[86] == NEWLINE
}

impl Produto {
    /// Encodes the product as one record.
    pub fn to_bytes(&self) -> (r: Vec<u8>)
        ensures
            r@ == produto_bytes(self@),
            r@.len() == PRODUTO_WIDTH,
    {
        let mut out: Vec<u8> = Vec::new();
        push_i64(&mut out, self.product_id);
        push_text_slot(&mut out, &self.category_alias, 30);
        push_u64(&mut out, self.price_bits);
        push_text_slot(&mut out, &self.material, 20);
        push_text_slot(&mut out, &self.stone, 20);
        out.push(NEWLINE);
        proof {
            lemma_auto_spec_u64_to_from_le_bytes();
            assert(out@ =~= produto_bytes(self@));
        }
        out
    }

    /// Decodes one record.
    pub fn from_bytes(bytes: &[u8]) -> (r: Produto)
        requires
            bytes@.len() == PRODUTO_WIDTH,
        ensures
            r@ == produto_of(bytes@),
    {
        let product_id = read_i64(bytes, 0);
        let category_alias = read_text_slot(bytes, 8, 30);
        let price_bits = read_u64(bytes, 38);
        let material = read_text_slot(bytes, 46, 20);
        let stone = read_text_slot(bytes, 66, 20);
        Produto { product_id, category_alias, price_bits, material, stone }
    }
}

/// Decoding the record of a canonical product gives the product back.
pub proof fn lemma_produto_decode_encode(p: ProdutoView)
    requires
        canonical_produto(p),
    ensures
        produto_bytes(p).len() == PRODUTO_WIDTH,
        produto_of(produto_bytes(p)) == p,
{
    lemma_auto_spec_u64_to_from_le_bytes();
    lemma_slot_round_trip(p.category_alias, 30);
    lemma_slot_round_trip(p.material, 20);
    lemma_slot_round_trip(p.stone, 20);
    let b = produto_bytes(p);
    assert(b.subrange(0, 8) =~= i64_le(p.product_id));
    assert(b.subrange(8, 38) =~= text_slot(p.category_alias, 30));
    assert(b.subrange(38, 46) =~= spec_u64_to_le_bytes(p.price_bits));
    assert(b.subrange(46, 66) =~= text_slot(p.material, 20));
    assert(b.subrange(66, 86) =~= text_slot(p.stone, 20));
    let q = produto_of(b);
    lemma_i64_round_trip(p.product_id, b.subrange(0, 8));
}

/// Encoding the product of a canonical record gives the record back.
pub proof fn lemma_produto_encode_decode(b: Seq<u8>)
    requires
        canonical_produto_record(b),
    ensures
        canonical_produto(produto_of(b)),
        produto_bytes(produto_of(b)) == b,
{
    lemma_auto_spec_u64_to_from_le_bytes();
    lemma_text_round_trip(b.subrange(8, 38));
    lemma_text_round_trip(b.subrange(46, 66));
    lemma_text_round_trip(b.subrange(66, 86));
    let id = le_i64(b.subrange(0, 8));
    lemma_i64_round_trip(id, b.subrange(0, 8));
    assert(produto_bytes(produto_of(b)) =~= b);
}

/// A copy of `p`.
fn copy_produto(p: &Produto) -> (r: Produto)
    ensures
        r@ == p@,
{
    Produto {
        product_id: p.product_id,
        category_alias: p.category_alias.clone(),
        price_bits: p.price_bits,
        material: p.material.clone(),
        stone: p.stone.clone(),
    }
}

/// `data` holds exactly the records of `ps`, in order.
pub open spec fn holds_produtos(data: Seq<u8>, ps: Seq<Produto>) -> bool {
    &&& data.len() == ps.len() * PRODUTO_WIDTH
    &&& record_count(data, PRODUTO_WIDTH as nat) == ps.len()
    &&& forall|i: int|
        0 <= i < ps.len() ==> #[trigger] record_at(data, PRODUTO_WIDTH as nat, i) == produto_bytes(
            ps[i]@,
        )
}

/// Sorts the products by id and lays them out as a primary file.
pub fn inserir_produtos_ordenados(produtos: &mut Vec<Produto>) -> (r: Vec<u8>)
    ensures
        exists|perm: Seq<usize>|
            is_permutation(perm, old(produtos)@.len()) && forall|i: int|
                0 <= i < perm.len() ==> (#[trigger] final(produtos)@[i])@ == old(produtos)@[perm[i] as int]@,
        final(produtos)@.len() == old(produtos)@.len(),
        forall|i: int, j: int|
            0 <= i < j < final(produtos)@.len() ==> final(produtos)@[i].product_id <= final(produtos)@[j].product_id,
        holds_produtos(r@, final(produtos)@),
{
    let n = produtos.len();
    let mut keys: Vec<i64> = Vec::new();
    let mut i: usize = 0;
    while i < n
        invariant
            n == produtos@.len(),
            i <= n,
            keys@.len() == i,
            forall|t: int| 0 <= t < i ==> #[trigger] keys@[t] == produtos@[t].product_id,
        decreases n - i,
    {
        keys.push(produtos[i].product_id);
        i = i + 1;
    }
    let order = sorted_order(&keys);
    let mut sorted: Vec<Produto> = Vec::new();
    let mut t: usize = 0;
    while t < n
        invariant
            n == produtos@.len(),
            n == keys@.len(),
            is_permutation(order@, n as nat),
            forall|u: int| 0 <= u < n ==> #[trigger] keys@[u] == produtos@[u].product_id,
            t <= n,
            sorted@.len() == t,
            forall|u: int| 0 <= u < t ==> (#[trigger] sorted@[u])@ == produtos@[order@[u] as int]@,
        decreases n - t,
    {
        let p = copy_produto(&produtos[order[t]]);
        sorted.push(p);
        t = t + 1;
    }
    proof {
        assert forall|a: int, b: int| 0 <= a < b < sorted@.len() implies sorted@[a].product_id
            <= sorted@[b].product_id by {
            assert(keys@[order@[a] as int] <= keys@[order@[b] as int]);
        }
    }
    *produtos = sorted;
    let mut out: Vec<u8> = Vec::new();
    let mut t: usize = 0;
    while t < n
        invariant
            n == produtos@.len(),
            t <= n,
            holds_produtos(out@, produtos@.take(t as int)),
        decreases n - t,
    {
        let bytes = produtos[t].to_bytes();
        proof {
            lemma_push_record(out@, bytes@, PRODUTO_WIDTH as nat);
            assert forall|u: int| 0 <= u < t + 1 implies #[trigger] record_at(
                out@ + bytes@,
                PRODUTO_WIDTH as nat,
                u,
            ) == produto_bytes(produtos@.take(t + 1)[u]@) by {
                if u < t {
                    assert(record_at(out@, PRODUTO_WIDTH as nat, u) == produto_bytes(
                        produtos@.take(t as int)[u]@,
                    ));
                }
            }
        }
        append_record(&mut out, bytes.as_slice());
        t = t + 1;
    }
    proof {
        assert(produtos@.take(n as int) =~= produtos@);
    }
    out
}

/// The products of the first `limite` records of a file.
pub fn mostrar_produtos(dados: &[u8], limite: usize) -> (r: Vec<Produto>)
    ensures
        r@.len() == if limite < record_count(dados@, PRODUTO_WIDTH as nat) {
            limite as nat
        } else {
            record_count(dados@, PRODUTO_WIDTH as nat)
        },
        forall|i: int|
            0 <= i < r@.len() ==> (#[trigger] r@[i])@ == produto_of(
                record_at(dados@, PRODUTO_WIDTH as nat, i),
            ),
{
    let n = dados.len() / PRODUTO_WIDTH;
    let m = if limite < n {
        limite
    } else {
        n
    };
    let mut out: Vec<Produto> = Vec::new();
    let mut i: usize = 0;
    while i < m
        invariant
            n == record_count(dados@, PRODUTO_WIDTH as nat),
            m <= n,
            i <= m,
            out@.len() == i,
            forall|t: int|
                0 <= t < i ==> (#[trigger] out@[t])@ == produto_of(
                    record_at(dados@, PRODUTO_WIDTH as nat, t),
                ),
        decreases m - i,
    {
        let rec = record_slice(dados, PRODUTO_WIDTH, i);
        out.push(Produto::from_bytes(rec));
        i = i + 1;
    }
    out
}

/// Binary search of a primary file for the product with id `chave`. When
/// ids strictly increase along the file, it finds the product whenever it is
/// there.
pub fn busca_binaria_arquivo(dados: &[u8], chave: i64) -> (r: Option<Produto>)
    ensures
        r matches Some(p) ==> exists|i: int|
            0 <= i < record_count(dados@, PRODUTO_WIDTH as nat) && key_at(
                dados@,
                PRODUTO_WIDTH as nat,
                i,
            ) == chave && p@ == produto_of(record_at(dados@, PRODUTO_WIDTH as nat, i)),
        r is None && keys_strictly_sorted(dados@, PRODUTO_WIDTH as nat) ==> forall|i: int|
            0 <= i < record_count(dados@, PRODUTO_WIDTH as nat) ==> key_at(
                dados@,
                PRODUTO_WIDTH as nat,
                i,
            ) != chave,
{
    match binary_search_records(dados, PRODUTO_WIDTH, chave) {
        Some(i) => Some(Produto::from_bytes(record_slice(dados, PRODUTO_WIDTH, i))),
        None => None,
    }
}

/// Tombstones the first live product with id `chave` in a file image.
pub fn remover_produto(dados: &mut Vec<u8>, chave: i64) -> (r: bool)
    ensures
        match find_first_live(old(dados)@, PRODUTO_WIDTH as nat, chave) {
            Some(i) => r && final(dados)@ == kill_record(old(dados)@, PRODUTO_WIDTH as nat, i),
            None => !r && final(dados)@ == old(dados)@,
        },
{
    tombstone_key(dados, PRODUTO_WIDTH, chave)
}

/// Tombstones the first live product with id `chave` in an overflow file.
pub fn remover_do_overflow(overflow: &mut Vec<u8>, chave: i64) -> (r: bool)
    ensures
        match find_first_live(old(overflow)@, PRODUTO_WIDTH as nat, chave) {
            Some(i) => r && final(overflow)@ == kill_record(old(overflow)@, PRODUTO_WIDTH as nat, i),
            None => !r && final(overflow)@ == old(overflow)@,
        },
{
    tombstone_key(overflow, PRODUTO_WIDTH, chave)
}

/// Deletes the product with id `chave`: from the primary file if it is live
/// there, else from the overflow file.
pub fn remover_produto_com_overflow(primary: &mut Vec<u8>, overflow: &mut Vec<u8>, chave: i64) -> (r:
    bool)
    ensures
        match find_first_live(old(primary)@, PRODUTO_WIDTH as nat, chave) {
            Some(i) => r && final(primary)@ == kill_record(old(primary)@, PRODUTO_WIDTH as nat, i)
                && final(overflow)@ == old(overflow)@,
            None => match find_first_live(old(overflow)@, PRODUTO_WIDTH as nat, chave) {
                Some(i) => r && final(overflow)@ == kill_record(
                    old(overflow)@,
                    PRODUTO_WIDTH as nat,
                    i,
                ) && final(primary)@ == old(primary)@,
                None => !r && final(primary)@ == old(primary)@ && final(overflow)@ == old(overflow)@,
            },
        },
        final(primary)@.len() == old(primary)@.len(),
        final(overflow)@.len() == old(overflow)@.len(),
        forall|idx: IndiceParcial|
            #[trigger] store_wf(old(primary)@, old(overflow)@, PRODUTO_WIDTH as nat, idx) ==> {
                &&& store_wf(final(primary)@, final(overflow)@, PRODUTO_WIDTH as nat, idx)
                &&& store_get(final(primary)@, final(overflow)@, PRODUTO_WIDTH as nat, chave) is None
                &&& forall|k2: i64|
                    k2 != chave ==> #[trigger] store_get(
                        final(primary)@,
                        final(overflow)@,
                        PRODUTO_WIDTH as nat,
                        k2,
                    ) == store_get(old(primary)@, old(overflow)@, PRODUTO_WIDTH as nat, k2)
            },
{
    delete(primary, overflow, PRODUTO_WIDTH, chave)
}

/// Looks the product with id `chave` up in the primary file through the
/// index.
pub fn consultar_com_indice(dados: &[u8], indice: &IndiceParcial, chave: i64) -> (r: Option<Produto>)
    ensures
        r matches Some(p) ==> p.product_id == chave && live_key(chave),
        primary_indexed(dados@, PRODUTO_WIDTH as nat, *indice) ==> match find_first_live(
            dados@,
            PRODUTO_WIDTH as nat,
            chave,
        ) {
            Some(i) => r matches Some(p) && p@ == produto_of(record_at(dados@, PRODUTO_WIDTH as nat, i)),
            None => r is None,
        },
{
    match lookup_primary(dados, PRODUTO_WIDTH, indice, chave) {
        Some(p) => {
            let _len = dados.len();
            let rec = &dados[p..p + PRODUTO_WIDTH];
            proof {
                assert(rec@.subrange(0, 8) =~= dados@.subrange(p as int, p + 8));
                if primary_indexed(dados@, PRODUTO_WIDTH as nat, *indice) {
                    let i = find_first_live(dados@, PRODUTO_WIDTH as nat, chave).unwrap();
                    lemma_find_first_live(dados@, PRODUTO_WIDTH as nat, chave);
                    lemma_record_in_bounds(dados@, PRODUTO_WIDTH as nat, i);
                    assert(rec@ == record_at(dados@, PRODUTO_WIDTH as nat, i));
                }
            }
            Some(Produto::from_bytes(rec))
        },
        None => None,
    }
}

/// The first live product with id `chave` in an overflow file.
pub fn buscar_no_overflow(overflow: &[u8], chave: i64) -> (r: Option<Produto>)
    ensures
        match find_first_live(overflow@, PRODUTO_WIDTH as nat, chave) {
            Some(i) => r matches Some(p) && p@ == produto_of(
                record_at(overflow@, PRODUTO_WIDTH as nat, i),
            ),
            None => r is None,
        },
        r matches Some(p) ==> p.product_id == chave,
{
    proof {
        lemma_find_first_live(overflow@, PRODUTO_WIDTH as nat, chave);
    }
    match find_live(overflow, PRODUTO_WIDTH, chave) {
        Some(i) => {
            proof {
                crate::engine::lemma_first_match(overflow@, PRODUTO_WIDTH as nat, chave, i as int);
                lemma_key_at_record(overflow@, PRODUTO_WIDTH as nat, i as int);
            }
            Some(Produto::from_bytes(record_slice(overflow, PRODUTO_WIDTH, i)))
        },
        None => None,
    }
}

/// Looks the product with id `chave` up by binary search of the primary
/// file, then in the overflow file.
pub fn buscar_produto_com_overflow(primary: &[u8], overflow: &[u8], chave: i64) -> (r: Option<
    Produto,
>)
    ensures
        r matches Some(p) ==> p.product_id == chave,
        r matches Some(p) ==> (exists|i: int|
            0 <= i < record_count(primary@, PRODUTO_WIDTH as nat) && p@ == produto_of(
                record_at(primary@, PRODUTO_WIDTH as nat, i),
            )) || (find_first_live(overflow@, PRODUTO_WIDTH as nat, chave) matches Some(i) && p@
            == produto_of(record_at(overflow@, PRODUTO_WIDTH as nat, i))),
        keys_strictly_sorted(primary@, PRODUTO_WIDTH as nat) ==> (r is None <==> (
        find_first_live(overflow@, PRODUTO_WIDTH as nat, chave) is None && forall|i: int|
            0 <= i < record_count(primary@, PRODUTO_WIDTH as nat) ==> key_at(
                primary@,
                PRODUTO_WIDTH as nat,
                i,
            ) != chave)),
{
    match busca_binaria_arquivo(primary, chave) {
        Some(p) => {
            proof {
                let i = choose|i: int|
                    0 <= i < record_count(primary@, PRODUTO_WIDTH as nat) && key_at(
                        primary@,
                        PRODUTO_WIDTH as nat,
                        i,
                    ) == chave && p@ == produto_of(record_at(primary@, PRODUTO_WIDTH as nat, i));
                lemma_key_at_record(primary@, PRODUTO_WIDTH as nat, i);
            }
            Some(p)
        },
        None => buscar_no_overflow(overflow, chave),
    }
}

/// Looks the product with id `chave` up: in the primary file through the
/// index, then in the overflow file.
pub fn consultar_com_indice_e_overflow(
    primary: &[u8],
    overflow: &[u8],
    indice: &IndiceParcial,
    chave: i64,
) -> (r: Option<Produto>)
    ensures
        r matches Some(p) ==> p.product_id == chave && live_key(chave),
        primary_indexed(primary@, PRODUTO_WIDTH as nat, *indice) ==> match store_get(
            primary@,
            overflow@,
            PRODUTO_WIDTH as nat,
            chave,
        ) {
            Some(rec) => r matches Some(p) && p@ == produto_of(rec),
            None => r is None,
        },
{
    match lookup(primary, overflow, PRODUTO_WIDTH, indice, chave) {
        Some(rec) => Some(Produto::from_bytes(rec)),
        None => None,
    }
}

/// The key of a product's record is its id.
pub proof fn lemma_produto_key(p: ProdutoView)
    ensures
        produto_bytes(p).len() == PRODUTO_WIDTH,
        key_of(produto_bytes(p)) == p.product_id,
{
    crate::codec::lemma_i64_round_trip(p.product_id, seq![]);
    lemma_auto_spec_u64_to_from_le_bytes();
    assert(produto_bytes(p).subrange(0, 8) =~= i64_le(p.product_id));
}

/// Inserts a product: its record is appended to the overflow file, and the
/// store is reorganized once the overflow file is larger than a tenth of the
/// primary file. A product whose id is the tombstone marker is refused. Tells
/// whether the store was reorganized.
pub fn inserir_novo_produto(
    primary: &mut Vec<u8>,
    overflow: &mut Vec<u8>,
    produto: &Produto,
    indice: &mut IndiceParcial,
) -> (r: Result<bool, StoreError>)
    requires
        old(indice).fator_esparsidade > 0,
        old(overflow)@.len() + PRODUTO_WIDTH <= usize::MAX,
    ensures
        !live_key(produto.product_id) ==> {
            &&& r == Err::<bool, StoreError>(StoreError::InvalidInput)
            &&& final(primary)@ == old(primary)@
            &&& final(overflow)@ == old(overflow)@
            &&& *final(indice) == *old(indice)
        },
        live_key(produto.product_id) && !(10 * (old(overflow)@.len() + PRODUTO_WIDTH) > old(
            primary,
        )@.len()) ==> {
            &&& r == Ok::<bool, StoreError>(false)
            &&& final(overflow)@ == old(overflow)@ + produto_bytes(produto@)
            &&& final(primary)@ == old(primary)@
            &&& *final(indice) == *old(indice)
        },
        live_key(produto.product_id) && 10 * (old(overflow)@.len() + PRODUTO_WIDTH) > old(
            primary,
        )@.len() ==> {
            &&& r == Ok::<bool, StoreError>(true)
            &&& reorganized(
                final(primary)@,
                all_records(old(primary)@, old(overflow)@ + produto_bytes(produto@), PRODUTO_WIDTH as nat),
                PRODUTO_WIDTH as nat,
            )
            &&& final(overflow)@.len() == 0
            &&& final(indice).fator_esparsidade == old(indice).fator_esparsidade
            &&& samples(
                final(primary)@,
                PRODUTO_WIDTH as nat,
                old(indice).fator_esparsidade as nat,
                final(indice).entradas@,
            )
        },
        whole(old(primary)@, PRODUTO_WIDTH as nat) && whole(old(overflow)@, PRODUTO_WIDTH as nat)
            ==> whole(final(primary)@, PRODUTO_WIDTH as nat) && whole(
            final(overflow)@,
            PRODUTO_WIDTH as nat,
        ),
        store_wf(old(primary)@, old(overflow)@, PRODUTO_WIDTH as nat, *old(indice)) && live_key(
            produto.product_id,
        ) && store_get(old(primary)@, old(overflow)@, PRODUTO_WIDTH as nat, produto.product_id)
            is None ==> {
            &&& store_wf(final(primary)@, final(overflow)@, PRODUTO_WIDTH as nat, *final(indice))
            &&& forall|k: i64|
                #[trigger] store_get(final(primary)@, final(overflow)@, PRODUTO_WIDTH as nat, k)
                    == if k == produto.product_id {
                    Some(produto_bytes(produto@))
                } else {
                    store_get(old(primary)@, old(overflow)@, PRODUTO_WIDTH as nat, k)
                }
        },
{
    let bytes = produto.to_bytes();
    proof {
        lemma_produto_key(produto@);
    }
    insert(primary, overflow, bytes.as_slice(), PRODUTO_WIDTH, indice)
}

/// Reorganizes the product store: the primary file is rewritten with one
/// record per live id, sorted, the overflow file is emptied, and the index is
/// rebuilt with its sparsity factor.
pub fn reconstruir_arquivo_e_indice(
    primary: &mut Vec<u8>,
    overflow: &mut Vec<u8>,
    indice: &mut IndiceParcial,
)
    requires
        old(indice).fator_esparsidade > 0,
    ensures
        reorganized(
            final(primary)@,
            all_records(old(primary)@, old(overflow)@, PRODUTO_WIDTH as nat),
            PRODUTO_WIDTH as nat,
        ),
        final(overflow)@.len() == 0,
        final(indice).fator_esparsidade == old(indice).fator_esparsidade,
        samples(
            final(primary)@,
            PRODUTO_WIDTH as nat,
            old(indice).fator_esparsidade as nat,
            final(indice).entradas@,
        ),
        whole(final(primary)@, PRODUTO_WIDTH as nat),
        primary_indexed(final(primary)@, PRODUTO_WIDTH as nat, *final(indice)),
        store_wf(old(primary)@, old(overflow)@, PRODUTO_WIDTH as nat, *old(indice)) ==> {
            &&& store_wf(final(primary)@, final(overflow)@, PRODUTO_WIDTH as nat, *final(indice))
            &&& forall|k: i64|
                #[trigger] store_get(final(primary)@, final(overflow)@, PRODUTO_WIDTH as nat, k)
                    == store_get(old(primary)@, old(overflow)@, PRODUTO_WIDTH as nat, k)
        },
{
    reorganize(primary, overflow, PRODUTO_WIDTH, indice);
}

/// Products loaded in order of strictly increasing, live ids, with an index
/// built over them, make a consistent store with an empty overflow file, in
/// which a lookup of each product's id owes that product's record and a
/// lookup of any other id owes nothing.
pub proof fn lemma_produtos_loaded(dados: Seq<u8>, ps: Seq<Produto>, indice: IndiceParcial)
    requires
        indice.fator_esparsidade > 0,
        holds_produtos(dados, ps),
        forall|i: int, j: int| 0 <= i < j < ps.len() ==> ps[i].product_id < ps[j].product_id,
        forall|i: int| 0 <= i < ps.len() ==> live_key(#[trigger] ps[i].product_id),
        samples(dados, PRODUTO_WIDTH as nat, indice.fator_esparsidade as nat, indice.entradas@),
    ensures
        store_wf(dados, Seq::<u8>::empty(), PRODUTO_WIDTH as nat, indice),
        forall|i: int|
            0 <= i < ps.len() ==> #[trigger] store_get(
                dados,
                Seq::<u8>::empty(),
                PRODUTO_WIDTH as nat,
                ps[i].product_id,
            ) == Some(produto_bytes(ps[i]@)),
        forall|k: i64|
            #[trigger] store_get(dados, Seq::<u8>::empty(), PRODUTO_WIDTH as nat, k) is Some
                ==> exists|i: int| 0 <= i < ps.len() && ps[i].product_id == k,
{
    let w = PRODUTO_WIDTH as nat;
    assert forall|i: int| 0 <= i < ps.len() implies #[trigger] key_at(dados, w, i)
        == ps[i].product_id by {
        lemma_key_at_record(dados, w, i);
        lemma_produto_key(ps[i]@);
    }
    lemma_bulk_load_store(dados, w, indice);
    assert forall|i: int| 0 <= i < ps.len() implies #[trigger] store_get(
        dados,
        Seq::<u8>::empty(),
        w,
        ps[i].product_id,
    ) == Some(produto_bytes(ps[i]@)) by {
        assert(key_at(dados, w, i) == ps[i].product_id);
        assert(store_get(dados, Seq::<u8>::empty(), w, key_at(dados, w, i)) == Some(
            record_at(dados, w, i),
        ));
        assert(record_at(dados, w, i) == produto_bytes(ps[i]@));
    }
    assert forall|k: i64| #[trigger] store_get(dados, Seq::<u8>::empty(), w, k) is Some implies exists|
        i: int,
    | 0 <= i < ps.len() && ps[i].product_id == k by {
        assert(has_key(dados, w, k));
        let i = choose|i: int| 0 <= i < record_count(dados, w) && key_at(dados, w, i) == k;
        assert(ps[i].product_id == k);
    }
}

} // verus!
