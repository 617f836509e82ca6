//! The sparse index: one (key, byte offset) entry for every N-th record of the
//! primary file, and its binary file format.
use crate::codec::{i64_le, le_i64, lemma_i64_round_trip, push_i64, push_u32, push_u64, read_i64, read_u32, read_u64};
use crate::store::{key_at, record_count};
use vstd::bytes::*;
use vstd::prelude::*;

verus! {

/// One index entry: the key of a primary record and the byte offset where the
/// record starts.
#[derive(Debug, Clone, Copy, PartialEq, Eq, Structural)]
pub struct IndiceEntry {
    pub chave: i64,
    pub posicao: u64,
}

/// Width in bytes of an index entry on disk.
pub const ENTRY_WIDTH: usize = 16;

/// Width in bytes of the index file header.
pub const HEADER_WIDTH: usize = 8;

/// Errors that the store reports besides I/O failures.
#[derive(Debug, Clone, Copy, PartialEq, Eq, Structural)]
pub enum StoreError {
    /// The index file is shorter than its header says.
    CorruptIndex,
    /// A record carries the key reserved for deleted records.
    InvalidInput,
}

/// The 16 bytes of an entry: key, then offset, both little-endian.
pub open spec fn entry_bytes(e: IndiceEntry) -> Seq<u8> {
    i64_le(e.chave) + spec_u64_to_le_bytes(e.posicao)
}

/// The entry that the 16 bytes `b` hold.
pub open spec fn entry_of(b: Seq<u8>) -> IndiceEntry {
    IndiceEntry { chave: le_i64(b.subrange(0, 8)), posicao: spec_u64_from_le_bytes(b.subrange(8, 16)) }
}

impl IndiceEntry {
    /// Encodes the entry.
    pub fn to_bytes(&self) -> (r: Vec<u8>)
        ensures
            r@ == entry_bytes(*self),
            r@.len() == ENTRY_WIDTH,
    {
        let mut out: Vec<u8> = Vec::new();
        push_i64(&mut out, self.chave);
        push_u64(&mut out, self.posicao);
        proof {
            lemma_auto_spec_u64_to_from_le_bytes();
        }
        out
    }

    /// Decodes an entry from its 16 bytes.
    pub fn from_bytes(bytes: &[u8]) -> (r: IndiceEntry)
        requires
            bytes@.len() == ENTRY_WIDTH,
        ensures
            r == entry_of(bytes@),
    {
        let chave = read_i64(bytes, 0);
        let posicao = read_u64(bytes, 8);
        IndiceEntry { chave, posicao }
    }
}

/// Decoding the bytes of an entry gives the entry back.
pub proof fn lemma_entry_round_trip(e: IndiceEntry)
    ensures
        entry_bytes(e).len() == ENTRY_WIDTH,
        entry_of(entry_bytes(e)) == e,
{
    lemma_auto_spec_u64_to_from_le_bytes();
    lemma_i64_round_trip(e.chave, seq![]);
    let b = entry_bytes(e);
    assert(b.subrange(0, 8) =~= i64_le(e.chave));
    assert(b.subrange(8, 16) =~= spec_u64_to_le_bytes(e.posicao));
}

/// The sparse index over a primary file.
#[derive(Debug, Clone)]
pub struct IndiceParcial {
    pub entradas: Vec<IndiceEntry>,
    pub fator_esparsidade: usize,
}

/// The entries laid out back to back.
pub open spec fn entries_bytes(es: Seq<IndiceEntry>) -> Seq<u8>
    decreases es.len(),
{
    if es.len() == 0 {
        seq![]
    } else {
        entries_bytes(es.drop_last()) + entry_bytes(es.last())
    }
}

/// The first `n` entries laid out back to back in `b`.
pub open spec fn entries_of(b: Seq<u8>, n: nat) -> Seq<IndiceEntry>
    decreases n,
{
    if n == 0 {
        seq![]
    } else {
        entries_of(b, (n - 1) as nat).push(
            entry_of(b.subrange(16 * (n - 1), 16 * (n as int))),
        )
    }
}

/// The index file: sparsity factor and entry count as 32-bit little-endian
/// integers, then the entries.
pub open spec fn index_file(factor: u32, es: Seq<IndiceEntry>) -> Seq<u8> {
    spec_u32_to_le_bytes(factor) + spec_u32_to_le_bytes(es.len() as u32) + entries_bytes(es)
}

/// The entry count that the header of `b` declares.
pub open spec fn declared_count(b: Seq<u8>) -> nat {
    spec_u32_from_le_bytes(b.subrange(4, 8)) as nat
}

/// An index file is whole when it holds its header and every entry that the
/// header declares.
pub open spec fn index_file_whole(b: Seq<u8>) -> bool {
    b.len() >= HEADER_WIDTH && b.len() >= HEADER_WIDTH + ENTRY_WIDTH * declared_count(b)
}

/// The sparsity factor that the header of `b` holds.
pub open spec fn declared_factor(b: Seq<u8>) -> u32 {
    spec_u32_from_le_bytes(b.subrange(0, 4))
}

/// The entries that a whole index file holds.
pub open spec fn file_entries(b: Seq<u8>) -> Seq<IndiceEntry> {
    entries_of(b.subrange(HEADER_WIDTH as int, b.len() as int), declared_count(b))
}

/// Keys strictly increase along the entries.
pub open spec fn keys_increasing(es: Seq<IndiceEntry>) -> bool {
    forall|i: int, j: int| 0 <= i < j < es.len() ==> es[i].chave < es[j].chave
}

/// The entries that sample every `f`-th record of `data`: entry `j` holds the
/// key of record `j * f` and its byte offset, one entry for each such record.
pub open spec fn samples(data: Seq<u8>, w: nat, f: nat, es: Seq<IndiceEntry>) -> bool {
    &&& es.len() * f >= record_count(data, w)
    &&& forall|j: int| 0 <= j < es.len() ==> #[trigger] sample_at(data, w, f, es, j)
}

/// Entry `j` holds the key of record `j * f` and its byte offset.
pub open spec fn sample_at(data: Seq<u8>, w: nat, f: nat, es: Seq<IndiceEntry>, j: int) -> bool {
    &&& j * f < record_count(data, w)
    &&& es[j].posicao == j * f * w
    &&& es[j].chave == key_at(data, w, j * f)
}

/// The entries of `b` depend only on its first `16 * n` bytes.
proof fn lemma_entries_of_prefix(b: Seq<u8>, c: Seq<u8>, n: nat)
    requires
        b.len() >= 16 * n,
        c.len() >= 16 * n,
        b.take(16 * (n as int)) == c.take(16 * (n as int)),
    ensures
        entries_of(b, n) == entries_of(c, n),
    decreases n,
{
    if n > 0 {
        let m = (n - 1) as nat;
        let (mi, ni) = (16 * (m as int), 16 * (n as int));
        assert(b.take(mi) =~= b.take(ni).take(mi));
        assert(c.take(mi) =~= c.take(ni).take(mi));
        lemma_entries_of_prefix(b, c, m);
        assert(b.subrange(mi, ni) =~= b.take(ni).subrange(mi, ni));
        assert(c.subrange(mi, ni) =~= c.take(ni).subrange(mi, ni));
    }
}

/// Reading back the entries laid out back to back gives them.
proof fn lemma_entries_round_trip(es: Seq<IndiceEntry>)
    ensures
        entries_bytes(es).len() == 16 * es.len(),
        entries_of(entries_bytes(es), es.len()) == es,
    decreases es.len(),
{
    if es.len() > 0 {
        let init = es.drop_last();
        lemma_entries_round_trip(init);
        lemma_entry_round_trip(es.last());
        let b = entries_bytes(es);
        let n = es.len();
        assert(b.take(16 * (n - 1)) =~= entries_bytes(init).take(16 * (n - 1)));
        lemma_entries_of_prefix(b, entries_bytes(init), (n - 1) as nat);
        assert(b.subrange(16 * (n - 1), 16 * (n as int)) =~= entry_bytes(es.last()));
        assert(entries_of(b, n) =~= es);
    }
}

/// Saving an index and loading the file gives the same factor and the same
/// entries, entry by entry.
pub proof fn lemma_index_file_round_trip(factor: u32, es: Seq<IndiceEntry>)
    requires
        es.len() <= u32::MAX,
    ensures
        index_file_whole(index_file(factor, es)),
        declared_factor(index_file(factor, es)) == factor,
        declared_count(index_file(factor, es)) == es.len(),
        file_entries(index_file(factor, es)) == es,
{
    lemma_auto_spec_u32_to_from_le_bytes();
    lemma_entries_round_trip(es);
    let b = index_file(factor, es);
    assert(b.subrange(0, 4) =~= spec_u32_to_le_bytes(factor));
    assert(b.subrange(4, 8) =~= spec_u32_to_le_bytes(es.len() as u32));
    assert(b.subrange(8, b.len() as int) =~= entries_bytes(es));
}

impl IndiceParcial {
    /// An empty index with the given sparsity factor.
    pub fn novo(fator_esparsidade: usize) -> (r: IndiceParcial)
        ensures
            r.entradas@ == Seq::<IndiceEntry>::empty(),
            r.fator_esparsidade == fator_esparsidade,
    {
        IndiceParcial { entradas: Vec::new(), fator_esparsidade }
    }

    /// Appends an entry.
    pub fn adicionar_entrada(&mut self, chave: i64, posicao: u64)
        ensures
            final(self).entradas@ == old(self).entradas@.push(IndiceEntry { chave, posicao }),
            final(self).fator_esparsidade == old(self).fator_esparsidade,
    {
        self.entradas.push(IndiceEntry { chave, posicao });
    }

    /// The index file of this index.
    pub fn salvar_binario(&self) -> (r: Vec<u8>)
        requires
            self.fator_esparsidade <= u32::MAX,
            self.entradas@.len() <= u32::MAX,
        ensures
            r@ == index_file(self.fator_esparsidade as u32, self.entradas@),
    {
        let mut out: Vec<u8> = Vec::new();
        push_u32(&mut out, self.fator_esparsidade as u32);
        push_u32(&mut out, self.entradas.len() as u32);
        let ghost head = out@;
        let mut i: usize = 0;
        while i < self.entradas.len()
            invariant
                i <= self.entradas@.len(),
                out@ == head + entries_bytes(self.entradas@.take(i as int)),
            decreases self.entradas@.len() - i,
        {
            let mut b = self.entradas[i].to_bytes();
            out.append(&mut b);
            proof {
                let t = self.entradas@.take(i + 1);
                assert(t.drop_last() =~= self.entradas@.take(i as int));
            }
            i = i + 1;
        }
        proof {
            assert(self.entradas@.take(i as int) =~= self.entradas@);
        }
        out
    }

    /// Loads an index from its file. Fails with `CorruptIndex` when the file is
    /// shorter than its header, or than the entries that the header declares.
    pub fn carregar_binario(bytes: &[u8]) -> (r: Result<IndiceParcial, StoreError>)
        ensures
            index_file_whole(bytes@) <==> r is Ok,
            !index_file_whole(bytes@) ==> r == Err::<IndiceParcial, StoreError>(
                StoreError::CorruptIndex,
            ),
            r matches Ok(idx) ==> idx.fator_esparsidade == declared_factor(bytes@)
                && idx.entradas@ == file_entries(bytes@),
    {
        let len = bytes.len();
        if len < HEADER_WIDTH {
            return Err(StoreError::CorruptIndex);
        }
        let fator = read_u32(bytes, 0);
        let count = read_u32(bytes, 4);
        if (len - HEADER_WIDTH) / ENTRY_WIDTH < count as usize {
            return Err(StoreError::CorruptIndex);
        }
        let ghost body = bytes@.subrange(HEADER_WIDTH as int, len as int);
        let mut entradas: Vec<IndiceEntry> = Vec::new();
        let mut i: usize = 0;
        let mut pos: usize = HEADER_WIDTH;
        while i < count as usize
            invariant
                i <= count,
                pos == HEADER_WIDTH + 16 * i,
                HEADER_WIDTH + 16 * count <= len,
                len == bytes@.len(),
                body == bytes@.subrange(HEADER_WIDTH as int, len as int),
                entradas@ == entries_of(body, i as nat),
            decreases count - i,
        {
            let e = IndiceEntry::from_bytes(&bytes[pos..pos + ENTRY_WIDTH]);
            proof {
                assert(bytes@.subrange(pos as int, pos + 16) =~= body.subrange(
                    16 * i,
                    16 * (i + 1),
                ));
            }
            entradas.push(e);
            i = i + 1;
            pos = pos + ENTRY_WIDTH;
        }
        Ok(IndiceParcial { entradas, fator_esparsidade: fator as usize })
    }

    /// Finds the entry whose window may hold `chave`: the entry holding `chave`
    /// itself, else the last entry below it. When every entry is above `chave`
    /// the answer is entry 0 at offset 0; an empty index gives `None`.
    pub fn buscar_posicao(&self, chave: i64) -> (r: Option<(usize, u64)>)
        ensures
            self.entradas@.len() == 0 <==> r is None,
            r matches Some((i, off)) ==> {
                let es = self.entradas@;
                &&& i < es.len()
                &&& {
                    ||| es[i as int].chave == chave && off == es[i as int].posicao
                    ||| es[i as int].chave < chave && off == es[i as int].posicao && (i + 1
                        < es.len() ==> es[i + 1].chave > chave)
                    ||| i == 0 && off == 0 && es[0].chave > chave
                }
                &&& keys_increasing(es) ==> {
                    &&& (exists|j: int| 0 <= j < es.len() && es[j].chave <= chave)
                        ==> es[i as int].chave <= chave
                    &&& i + 1 < es.len() ==> es[i + 1].chave > chave
                }
            },
    {
        let n = self.entradas.len();
        if n == 0 {
            return None;
        }
        let mut esq: usize = 0;
        let mut dir: usize = n;
        while esq < dir
            invariant
                esq <= dir <= n,
                n == self.entradas@.len(),
                esq > 0 ==> self.entradas@[esq - 1].chave < chave,
                dir < n ==> self.entradas@[dir as int].chave > chave,
            decreases dir - esq,
        {
            let meio = esq + (dir - esq) / 2;
            let k = self.entradas[meio].chave;
            if k < chave {
                esq = meio + 1;
            } else if k > chave {
                dir = meio;
            } else {
                let r = Some((meio, self.entradas[meio].posicao));
                proof {
                    let es = self.entradas@;
                    if keys_increasing(es) && meio + 1 < n {
                        assert(es[meio as int].chave < es[meio + 1].chave);
                    }
                }
                return r;
            }
        }
        if esq > 0 {
            Some((esq - 1, self.entradas[esq - 1].posicao))
        } else {
            proof {
                let es = self.entradas@;
                if keys_increasing(es) {
                    assert forall|j: int| 0 <= j < es.len() implies es[j].chave > chave by {
                        if j > 0 {
                            assert(es[0].chave < es[j].chave);
                        }
                    }
                }
            }
            Some((0, 0))
        }
    }
}

/// Builds the index of a primary file of `largura`-byte records, with one
/// entry for every `fator`-th record, tombstones included.
pub fn construir_indice_parcial(dados: &[u8], largura: usize, fator: usize) -> (r: IndiceParcial)
    requires
        largura >= 8,
        fator > 0,
    ensures
        r.fator_esparsidade == fator,
        samples(dados@, largura as nat, fator as nat, r.entradas@),
{
    let mut indice = IndiceParcial::novo(fator);
    let len = dados.len();
    let ghost w = largura as nat;
    let ghost f = fator as nat;
    let mut i: usize = 0;
    let mut pos: usize = 0;
    let mut left: usize = 0;
    while pos <= len && largura <= len - pos
        invariant
            largura >= 8,
            fator > 0,
            w == largura as nat,
            f == fator as nat,
            len == dados@.len(),
            pos == i * w,
            pos <= len,
            i <= record_count(dados@, w),
            indice.fator_esparsidade == fator,
            indice.entradas@.len() * f == i + left,
            left < f,
            forall|j: int|
                #![trigger indice.entradas@[j]]
                0 <= j < indice.entradas@.len() ==> indice.entradas@[j].posicao == j * f * w
                    && indice.entradas@[j].chave == key_at(dados@, w, j * f),
        decreases len - pos,
    {
        proof {
            assert(i < record_count(dados@, w)) by (nonlinear_arith)
                requires
                    pos == i * w,
                    pos + w <= len,
                    w > 0,
                    record_count(dados@, w) == (len as nat) / w,
            ;
        }
        let ghost prev = indice.entradas@;
        if left == 0 {
            let chave = read_i64(dados, pos);
            let ghost k = indice.entradas@.len() as int;
            proof {
                assert(k * f * w == pos) by (nonlinear_arith)
                    requires
                        k * f == i,
                        pos == i * w,
                ;
                assert((k + 1) * f == k * f + f) by (nonlinear_arith);
                assert(key_at(dados@, w, k * f) == chave);
            }
            indice.adicionar_entrada(chave, pos as u64);
            left = fator - 1;
        } else {
            left = left - 1;
        }
        proof {
            assert((i + 1) * w == i * w + w) by (nonlinear_arith);
        }
        i = i + 1;
        pos = pos + largura;
        proof {
            assert forall|j: int|
                #![trigger indice.entradas@[j]]
                0 <= j < indice.entradas@.len() implies indice.entradas@[j].posicao == j * f * w
                    && indice.entradas@[j].chave == key_at(dados@, w, j * f) by {
                if j < prev.len() {
                    assert(indice.entradas@[j] == prev[j]);
                }
            }
        }
    }
    proof {
        assert(i == record_count(dados@, w)) by (nonlinear_arith)
            requires
                pos == i * w,
                pos + w > len,
                pos <= len,
                i <= record_count(dados@, w),
                w > 0,
                record_count(dados@, w) == (len as nat) / w,
        ;
    }
    assert forall|j: int| 0 <= j < indice.entradas@.len() implies #[trigger] sample_at(
        dados@,
        w,
        f,
        indice.entradas@,
        j,
    ) by {
        let n = indice.entradas@.len() as int;
        assert(j * f <= n * f - f) by (nonlinear_arith)
            requires
                j <= n - 1,
                f > 0,
        ;
        assert(indice.entradas@[j].posicao == j * f * w);
    }
    assert(samples(dados@, w, f, indice.entradas@));
    indice
}

} // verus!
