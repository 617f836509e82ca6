use sparse_store::indice::{construir_indice_parcial, IndiceEntry, IndiceParcial, StoreError};
use sparse_store::pedido::{Pedido, PEDIDO_WIDTH};
use sparse_store::produto::{inserir_produtos_ordenados, Produto, PRODUTO_WIDTH};

fn produto(id: i64) -> Produto {
    Produto {
        product_id: id,
        category_alias: "ring".to_string(),
        price_bits: 1.0f64.to_bits(),
        material: "gold".to_string(),
        stone: "none".to_string(),
    }
}

#[test]
fn product_record_layout() {
    let p = Produto {
        product_id: 258,
        category_alias: "jewelry.earring".to_string(),
        price_bits: 2.5f64.to_bits(),
        material: "silver".to_string(),
        stone: "diamond".to_string(),
    };
    let b = p.to_bytes();
    assert_eq!(b.len(), PRODUTO_WIDTH);
    assert_eq!(&b[0..8], &258i64.to_le_bytes());
    assert_eq!(&b[8..23], b"jewelry.earring");
    assert!(b[23..38].iter().all(|&c| c == b' '));
    assert_eq!(&b[38..46], &2.5f64.to_le_bytes());
    assert_eq!(&b[46..52], b"silver");
    assert_eq!(&b[66..73], b"diamond");
    assert_eq!(b[86], b'\n');
    assert_eq!(Produto::from_bytes(&b), p);
}

#[test]
fn product_text_is_cut_to_its_slot() {
    let mut p = produto(1);
    p.material = "abcdefghijklmnopqrstuvwxyz".to_string();
    let b = p.to_bytes();
    assert_eq!(b.len(), 87);
    assert_eq!(Produto::from_bytes(&b).material, "abcdefghijklmnopqrst");
}

#[test]
fn canonical_record_round_trips() {
    let b = produto(5).to_bytes();
    assert_eq!(Produto::from_bytes(&b).to_bytes(), b);
    let o = Pedido {
        order_id: 9,
        user_id: -4,
        event_time: "2018-12-01 11:40:29 UTC".to_string(),
        product_id: 77,
        price_bits: 212.1f64.to_bits(),
    };
    let ob = o.to_bytes();
    assert_eq!(ob.len(), PEDIDO_WIDTH);
    assert_eq!(Pedido::from_bytes(&ob), o);
    assert_eq!(Pedido::from_bytes(&ob).to_bytes(), ob);
}

#[test]
fn decode_trims_only_trailing_spaces() {
    let mut p = produto(1);
    p.stone = "  blue".to_string();
    let back = Produto::from_bytes(&p.to_bytes());
    assert_eq!(back.stone, "  blue");
    p.stone = "blue   ".to_string();
    assert_eq!(Produto::from_bytes(&p.to_bytes()).stone, "blue");
}

#[test]
fn invalid_utf8_in_slot_is_replaced() {
    let mut b = produto(1).to_bytes();
    b[46] = 0xFF;
    b[47] = b'x';
    let p = Produto::from_bytes(&b);
    assert_eq!(p.material, "\u{FFFD}xld");
    assert_eq!(p.product_id, 1);
}

#[test]
fn tombstoned_record_decodes_with_key_minus_one() {
    let mut b = produto(12).to_bytes();
    for x in b[0..8].iter_mut() {
        *x = 0xFF;
    }
    let p = Produto::from_bytes(&b);
    assert_eq!(p.product_id, -1);
    assert_eq!(p.material, "gold");
}

#[test]
fn entry_bytes_round_trip() {
    let e = IndiceEntry { chave: -5, posicao: 1 << 40 };
    let b = e.to_bytes();
    assert_eq!(b.len(), 16);
    assert_eq!(&b[0..8], &(-5i64).to_le_bytes());
    assert_eq!(&b[8..16], &(1u64 << 40).to_le_bytes());
    assert_eq!(IndiceEntry::from_bytes(&b), e);
}

#[test]
fn index_file_layout_and_round_trip() {
    let mut ps: Vec<Produto> = (1..=25).map(produto).collect();
    let primary = inserir_produtos_ordenados(&mut ps);
    let idx = construir_indice_parcial(&primary, PRODUTO_WIDTH, 10);
    let file = idx.salvar_binario();
    assert_eq!(file.len(), 8 + 16 * 3);
    assert_eq!(&file[0..4], &10u32.to_le_bytes());
    assert_eq!(&file[4..8], &3u32.to_le_bytes());
    let back = IndiceParcial::carregar_binario(&file).unwrap();
    assert_eq!(back.fator_esparsidade, 10);
    assert_eq!(back.entradas, idx.entradas);
    let offs: Vec<u64> = back.entradas.iter().map(|e| e.posicao).collect();
    assert_eq!(offs, vec![0, 870, 1740]);
}

#[test]
fn short_index_file_is_corrupt() {
    let mut idx = IndiceParcial::novo(2);
    idx.adicionar_entrada(1, 0);
    idx.adicionar_entrada(3, 174);
    let file = idx.salvar_binario();
    assert_eq!(
        IndiceParcial::carregar_binario(&file[..file.len() - 1]).unwrap_err(),
        StoreError::CorruptIndex
    );
    assert_eq!(IndiceParcial::carregar_binario(&file[..5]).unwrap_err(), StoreError::CorruptIndex);
    let mut longer = file.clone();
    longer.push(0);
    assert_eq!(IndiceParcial::carregar_binario(&longer).unwrap().entradas.len(), 2);
    let empty = IndiceParcial::carregar_binario(&[3, 0, 0, 0, 0, 0, 0, 0]).unwrap();
    assert_eq!(empty.fator_esparsidade, 3);
    assert!(empty.entradas.is_empty());
}

#[test]
fn locate_finds_greatest_entry_not_above_key() {
    let mut idx = IndiceParcial::novo(10);
    for (k, off) in [(10i64, 0u64), (20, 870), (30, 1740)] {
        idx.adicionar_entrada(k, off);
    }
    assert_eq!(idx.buscar_posicao(20), Some((1, 870)));
    assert_eq!(idx.buscar_posicao(25), Some((1, 870)));
    assert_eq!(idx.buscar_posicao(10), Some((0, 0)));
    assert_eq!(idx.buscar_posicao(99), Some((2, 1740)));
    assert_eq!(idx.buscar_posicao(3), Some((0, 0)));
    assert_eq!(IndiceParcial::novo(10).buscar_posicao(3), None);
}

#[test]
fn index_counts_tombstones_as_records() {
    let mut ps: Vec<Produto> = (1..=5).map(produto).collect();
    let mut primary = inserir_produtos_ordenados(&mut ps);
    for x in primary[87..95].iter_mut() {
        *x = 0xFF;
    }
    let idx = construir_indice_parcial(&primary, PRODUTO_WIDTH, 1);
    let keys: Vec<i64> = idx.entradas.iter().map(|e| e.chave).collect();
    assert_eq!(keys, vec![1, -1, 3, 4, 5]);
    let idx2 = construir_indice_parcial(&primary, PRODUTO_WIDTH, 2);
    assert_eq!(idx2.entradas.len(), 3);
    assert!(construir_indice_parcial(&[], PRODUTO_WIDTH, 2).entradas.is_empty());
}
